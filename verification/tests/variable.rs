use varpath::environment::Environment;
use varpath::variable::complex::{parse_close_tag, parse_complex_variable, parse_open_tag};
use varpath::variable::simple::parse_simple_variable;
use varpath::variable::{parse_variable, parse_variable_name, Variable};

#[test]
fn test_parse_variable_name1() {
    let mut input = "foo}";
    assert_eq!(parse_variable_name(&mut input), Ok("foo"));
    assert_eq!(input, "}");
}

#[test]
fn test_parse_variable_name2() {
    let mut input = "1foo";
    assert_ne!(parse_variable_name(&mut input), Ok("foo"));
}

#[test]
fn test_parse_variable1() {
    let mut input = "$foo";
    assert_eq!(parse_variable(&mut input), Ok(Variable::new("foo")));
    assert_eq!(input, "");
}

#[test]
fn test_parse_variable2() {
    let mut input = "${foo}";
    assert_eq!(parse_variable(&mut input), Ok(Variable::new("foo")));
    assert_eq!(input, "");
}

#[test]
fn variable_test_eval() {
    let key = "TEST";
    let value = "test";
    let mut env = Environment::new();
    env.insert(key.to_string(), value.to_string());
    let var = Variable::new(key);
    assert_eq!(var.eval(&env).unwrap(), value);
}

#[test]
fn test_parse_open_tag() {
    let mut input = "${";
    assert_eq!(parse_open_tag(&mut input), Ok("${"));
    assert_eq!(input, "");
}

#[test]
fn test_parse_close_tag() {
    let mut input = "}";
    assert_eq!(parse_close_tag(&mut input), Ok("}"));
    assert_eq!(input, "");
}

#[test]
fn test_parse_complex_variable() {
    let mut input = "${foo}";
    assert_eq!(parse_complex_variable(&mut input), Ok("foo"));
    assert_eq!(input, "");
}

#[test]
fn test_parse_simple_variable1() {
    let mut input = "$foo";
    assert_eq!(parse_simple_variable(&mut input), Ok("foo"));
    assert_eq!(input, "");
}

#[test]
fn test_parse_simple_variable2() {
    let mut input = "$foo/";
    assert_eq!(parse_simple_variable(&mut input), Ok("foo"));
    assert_eq!(input, "/");
}
