use std::path::PathBuf;
use std::str::FromStr;
use varpath::environment::Environment;
use varpath::variable::Variable;
use varpath::varpath::{parse_path_parts, parse_word_str, PathPart, VarPath, Word};

#[test]
fn test_parse_word1() {
    let mut input = "abcd";
    assert_eq!(parse_word_str(&mut input), Ok("abcd"));
    assert_eq!(input, "");
}

#[test]
fn test_parse_word2() {
    let mut input = "aaa bbb";
    assert_eq!(parse_word_str(&mut input), Ok("aaa"));
    assert_eq!(input, " bbb");
}

#[test]
fn test_parse_word3() {
    let mut input = "_a-";
    assert_eq!(parse_word_str(&mut input), Ok("_a-"));
    assert_eq!(input, "");
}

#[test]
fn test_parse_path_parts_relative_path() {
    let mut input = "a/b/c";
    assert_eq!(
        parse_path_parts(&mut input),
        Ok((
            false,
            vec![
                PathPart::Word(Word::new("a")),
                PathPart::Word(Word::new("b")),
                PathPart::Word(Word::new("c"))
            ],
            false
        ))
    );
    assert_eq!(input, "");
}

#[test]
fn test_parse_path_parts_trailing_slash() {
    let mut input = "a/b/c/";
    assert_eq!(
        parse_path_parts(&mut input),
        Ok((
            false,
            vec![
                PathPart::Word(Word::new("a")),
                PathPart::Word(Word::new("b")),
                PathPart::Word(Word::new("c"))
            ],
            true
        ))
    );
    assert_eq!(input, "");
}

#[test]
fn test_parse_path_parts_leading_and_trailing_slashes() {
    let mut input = "/a/b/c/";
    assert_eq!(
        parse_path_parts(&mut input),
        Ok((
            true,
            vec![
                PathPart::Word(Word::new("a")),
                PathPart::Word(Word::new("b")),
                PathPart::Word(Word::new("c"))
            ],
            true
        ))
    );
    assert_eq!(input, "");
}

#[test]
fn test_parse_path_parts_relative_path_with_variable() {
    let mut input = "a/${b}/c";
    assert_eq!(
        parse_path_parts(&mut input),
        Ok((
            false,
            vec![
                PathPart::Word(Word::new("a")),
                PathPart::Variable(Variable::new("b")),
                PathPart::Word(Word::new("c"))
            ],
            false
        ))
    );
    assert_eq!(input, "");
}

#[test]
fn varpath_test_eval() {
    let key = String::from("TEST");
    let value = String::from("test");
    let input = format!("a/${{{}}}/c", key);
    let output = format!("a/{}/c", value);
    let mut env = Environment::new();
    env.insert(key, value);
    let varpath = VarPath::from_str(&input).unwrap();
    assert_eq!(
        PathBuf::from(varpath.eval(&env).unwrap()),
        std::path::PathBuf::from(output)
    );
}

#[test]
fn test_eval_leading_and_trailing_slash() {
    let key = String::from("TEST");
    let value = String::from("test");
    let input = format!("/a/${{{}}}/c/", key);
    let output = format!("/a/{}/c/", value);
    let varpath = VarPath::from_str(&input).unwrap();
    let mut env = Environment::new();
    env.insert(key, value);
    assert_eq!(
        PathBuf::from(varpath.eval(&env).unwrap()),
        std::path::PathBuf::from(output)
    );
}

#[test]
fn test_eval_leading_slash() {
    let key = String::from("TEST");
    let value = String::from("test");
    let input = format!("/a/${{{}}}/c", key);
    let output = format!("/a/{}/c", value);
    let mut env = Environment::new();
    env.insert(key, value);
    let varpath = VarPath::from_str(&input).unwrap();
    assert_eq!(
        PathBuf::from(varpath.eval(&env).unwrap()),
        std::path::PathBuf::from(output)
    );
}

#[test]
fn test_eval_trailing_slash() {
    let key = String::from("TEST");
    let value = String::from("test");
    let input = format!("a/${{{}}}/c/", key);
    let output = format!("a/{}/c/", value);
    let mut env = Environment::new();
    env.insert(key, value);
    let varpath = VarPath::from_str(&input).unwrap();
    assert_eq!(
        PathBuf::from(varpath.eval(&env).unwrap()),
        std::path::PathBuf::from(output)
    );
}
