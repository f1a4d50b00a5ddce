use std::path::PathBuf;
use std::str::FromStr;
use varpath::environment::EnvironmentBuilder;
use varpath::varpath::VarPath;

#[test]
fn test_no_lookup() {
    let env = EnvironmentBuilder::default().build();
    let actual = VarPath::from_str("/a/b/c").unwrap().eval(&env).unwrap();
    let expected = PathBuf::from("/a/b/c");
    assert_eq!(expected, actual);
}

#[test]
fn test_lookup_no_braces() {
    let key = String::from("key");
    let value = String::from("b");
    let env = EnvironmentBuilder::default().set(&key, &value).build();
    let actual = VarPath::from_str("/a/$key/c").unwrap().eval(&env).unwrap();
    let expected = PathBuf::from("/a/b/c");
    assert_eq!(expected, actual);
}

#[test]
fn test_lookup_braces() {
    let key = String::from("key");
    let value = String::from("b");
    let env = EnvironmentBuilder::default().set(&key, &value).build();
    let actual = VarPath::from_str("/a/${key}/c")
        .unwrap()
        .eval(&env)
        .unwrap();
    let expected = PathBuf::from("/a/b/c");
    assert_eq!(expected, actual);
}

#[test]
fn test_undefined_var() {
    let env = EnvironmentBuilder::default().build();
    let result = VarPath::from_str("/a/${BAD_BAD_BAD}/c").unwrap().eval(&env);
    assert!(result.is_err());
}
