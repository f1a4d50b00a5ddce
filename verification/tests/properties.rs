use std::path::PathBuf;
use varpath::charclass::{grammar_mark, word_char, word_class, word_special_chars};
use varpath::environment::{Environment, EnvironmentBuilder};
use varpath::variable::complex::{
    at_open_tag, parse_close_tag, parse_complex_variable, parse_open_tag,
};
use varpath::variable::simple::parse_simple_variable;
use varpath::variable::{parse_variable, parse_variable_name, EvalError, Variable};
use varpath::path::join_path;
use varpath::varpath::{
    parse_path_part, parse_path_part_with_leading_separator, parse_path_parts,
    parse_path_separator, parse_varpath, parse_variable_enum, parse_word, parse_word_enum,
    parse_word_str, PathPart, VarPath, VarPathError, Word,
};

fn word(text: &str) -> PathPart {
    PathPart::Word(Word::new(text))
}

fn variable(name: &str) -> PathPart {
    PathPart::Variable(Variable::new(name))
}

fn lookup(pairs: &[(&str, &str)]) -> Environment {
    let mut builder = EnvironmentBuilder::default();
    for (key, value) in pairs {
        builder = builder.set(key, value);
    }
    builder.build()
}

#[test]
fn absolute_literal_path_evaluates_to_itself() {
    let path = VarPath::parse("/a/b/c").unwrap();
    assert_eq!(path.eval(&lookup(&[])), Ok(PathBuf::from("/a/b/c")));
    assert_eq!(path.eval(&lookup(&[])).unwrap().to_str(), Some("/a/b/c"));
}

#[test]
fn bare_variable_is_replaced_by_its_value() {
    let path = VarPath::parse("/a/$key/c").unwrap();
    let actual = path.eval(&lookup(&[("key", "b")])).unwrap();
    assert_eq!(actual.to_str(), Some("/a/b/c"));
}

#[test]
fn braced_variable_is_replaced_by_its_value() {
    let path = VarPath::parse("/a/${key}/c").unwrap();
    let actual = path.eval(&lookup(&[("key", "b")])).unwrap();
    assert_eq!(actual.to_str(), Some("/a/b/c"));
}

#[test]
fn undefined_variable_is_named_in_the_error() {
    let path = VarPath::parse("/a/${BAD}/c").unwrap();
    assert_eq!(
        path.eval(&lookup(&[])),
        Err(EvalError::UndefinedVariable(String::from("BAD")))
    );
}

#[test]
fn relative_path_stays_relative() {
    let path = VarPath::parse("a/b/c").unwrap();
    assert!(!path.leading_slash());
    let actual = path.eval(&lookup(&[])).unwrap();
    assert!(actual.is_relative());
    assert_eq!(actual.to_str(), Some("a/b/c"));
}

#[test]
fn single_variable_evaluates_to_its_directory() {
    let path = VarPath::parse("${HOME}").unwrap();
    let actual = path.eval(&lookup(&[("HOME", "/home/user")])).unwrap();
    assert_eq!(actual, PathBuf::from("/home/user"));
    assert_eq!(actual.to_str(), Some("/home/user"));
}

#[test]
fn unterminated_brace_is_rejected() {
    assert_eq!(VarPath::parse("${foo"), Err(VarPathError::ParseError));
    let mut input = "${foo";
    assert_eq!(parse_complex_variable(&mut input), Err(VarPathError::ParseError));
    assert_eq!(input, "${foo");
    let mut input = "${foo";
    assert_eq!(parse_variable(&mut input), Err(VarPathError::ParseError));
    assert_eq!(input, "${foo");
}

#[test]
fn name_must_start_with_a_letter() {
    let mut input = "1foo";
    assert_eq!(parse_variable_name(&mut input), Err(VarPathError::ParseError));
    assert_eq!(input, "1foo");
    let mut input = "_foo";
    assert_eq!(parse_variable_name(&mut input), Err(VarPathError::ParseError));
    let mut input = "$1foo";
    assert_eq!(parse_simple_variable(&mut input), Err(VarPathError::ParseError));
    assert_eq!(input, "$1foo");
    assert_eq!(VarPath::parse("$1foo"), Err(VarPathError::ParseError));
    assert_eq!(VarPath::parse("${1foo}"), Err(VarPathError::ParseError));
    assert_eq!(VarPath::parse("/a/$/c"), Err(VarPathError::ParseError));
    // as a literal segment the same text is a word
    assert_eq!(
        VarPath::parse("1foo"),
        Ok(VarPath::new(vec![word("1foo")], false, false))
    );
}

#[test]
fn evaluation_succeeds_when_every_variable_is_defined() {
    let env = lookup(&[("a", "1"), ("b-c", "2"), ("D_e", "3")]);
    for text in ["$a", "/$a/${b-c}", "x/${D_e}/$a/", "/x/y", "${a}/${a}/${a}", "", "/"] {
        let path = VarPath::parse(text).unwrap();
        assert!(path.eval(&env).is_ok(), "{}", text);
    }
}

#[test]
fn evaluation_is_repeatable() {
    let env = lookup(&[("a", "1")]);
    let path = VarPath::parse("/x/$a/${a}").unwrap();
    assert_eq!(path.eval(&env), path.eval(&env));
    assert_eq!(path.eval(&env).unwrap().to_str(), Some("/x/1/1"));
    let missing = VarPath::parse("/x/$b").unwrap();
    assert_eq!(missing.eval(&env), missing.eval(&env));
    let same = VarPath::parse("/x/${a}/$a").unwrap();
    assert_eq!(path, same);
    assert_eq!(path.eval(&env), same.eval(&env));
}

#[test]
fn first_undefined_variable_wins() {
    let path = VarPath::parse("/a/${X}/$Y/$Z").unwrap();
    assert_eq!(
        path.eval(&lookup(&[("Z", "z")])),
        Err(EvalError::UndefinedVariable(String::from("X")))
    );
    assert_eq!(
        path.eval(&lookup(&[("X", "x"), ("Z", "z")])),
        Err(EvalError::UndefinedVariable(String::from("Y")))
    );
    assert_eq!(
        path.eval(&lookup(&[("X", "x"), ("Y", "y")])),
        Err(EvalError::UndefinedVariable(String::from("Z")))
    );
    assert_eq!(
        path.eval(&lookup(&[("X", "x"), ("Y", "y"), ("Z", "z")])),
        Ok(PathBuf::from("/a/x/y/z"))
    );
}

#[test]
fn evaluation_reads_only_the_variables_of_the_path() {
    let path = VarPath::parse("/a/$X").unwrap();
    let small = lookup(&[("X", "x")]);
    let large = lookup(&[("X", "x"), ("Y", "y"), ("a", "other")]);
    assert_eq!(path.eval(&small), path.eval(&large));
}

#[test]
fn absolute_value_replaces_what_came_before() {
    let path = VarPath::parse("/a/${HOME}/c").unwrap();
    let actual = path.eval(&lookup(&[("HOME", "/home/user")])).unwrap();
    assert_eq!(actual.to_str(), Some("/home/user/c"));
}

#[test]
fn trailing_slash_is_kept_in_the_structure_only() {
    let path = VarPath::parse("a/b/").unwrap();
    assert!(path.trailing_slash());
    assert_eq!(path.eval(&lookup(&[])).unwrap(), PathBuf::from("a/b"));
}

#[test]
fn empty_text_has_no_parts_and_the_leading_flag() {
    let path = VarPath::parse("").unwrap();
    assert_eq!(path, VarPath::new(vec![], true, false));
    assert!(path.parts().is_empty());
    assert!(path.leading_slash());
    assert!(!path.trailing_slash());
    assert_eq!(path.eval(&lookup(&[])).unwrap().to_str(), Some("/"));
}

#[test]
fn single_separator_has_no_parts_and_both_flags() {
    let path = VarPath::parse("/").unwrap();
    assert_eq!(path, VarPath::new(vec![], true, true));
    assert_eq!(path.eval(&lookup(&[])).unwrap().to_str(), Some("/"));
}

#[test]
fn consecutive_separators_are_rejected() {
    assert_eq!(VarPath::parse("//"), Err(VarPathError::ParseError));
    assert_eq!(VarPath::parse("a//b"), Err(VarPathError::ParseError));
    assert_eq!(VarPath::parse("/a//"), Err(VarPathError::ParseError));
    assert_eq!(VarPath::parse("//a"), Err(VarPathError::ParseError));
}

#[test]
fn leftover_input_is_rejected() {
    assert_eq!(VarPath::parse("a b"), Err(VarPathError::ParseError));
    assert_eq!(VarPath::parse("a$b"), Err(VarPathError::ParseError));
    assert_eq!(VarPath::parse("${a}b"), Err(VarPathError::ParseError));
    assert_eq!(VarPath::parse("a/b.txt"), Err(VarPathError::ParseError));
    assert_eq!(VarPath::parse("../a"), Err(VarPathError::ParseError));
    assert_eq!(VarPath::parse("a/{b}"), Err(VarPathError::ParseError));
    assert_eq!(VarPath::parse("a/b}"), Err(VarPathError::ParseError));
}

#[test]
fn parsed_structure_is_as_written() {
    assert_eq!(
        VarPath::parse("/a/$b/${c-d}/e_f/"),
        Ok(VarPath::new(
            vec![word("a"), variable("b"), variable("c-d"), word("e_f")],
            true,
            true
        ))
    );
    let path = VarPath::parse("$x/y").unwrap();
    assert_eq!(path.parts(), &[variable("x"), word("y")][..]);
    assert!(!path.leading_slash());
    assert!(!path.trailing_slash());
}

#[test]
fn bare_and_braced_forms_give_the_same_variable() {
    assert_eq!(VarPath::parse("/$name"), VarPath::parse("/${name}"));
    let mut bare = "$name/x";
    let mut braced = "${name}/x";
    assert_eq!(parse_variable(&mut bare), parse_variable(&mut braced));
    assert_eq!(bare, "/x");
    assert_eq!(braced, "/x");
}

#[test]
fn bare_name_ends_at_the_first_other_character() {
    let mut input = "$foo}bar";
    assert_eq!(parse_simple_variable(&mut input), Ok("foo"));
    assert_eq!(input, "}bar");
    let mut input = "$foo-bar_1.txt";
    assert_eq!(parse_simple_variable(&mut input), Ok("foo-bar_1"));
    assert_eq!(input, ".txt");
}

#[test]
fn unicode_letters_and_digits_are_word_characters() {
    assert!(word_char('é'));
    assert!(word_char('京'));
    assert!(word_char('٣'));
    assert!(word_char('a'));
    assert!(word_char('Z'));
    assert!(word_char('0'));
    assert!(word_char('_'));
    assert!(word_char('-'));
    assert!(!word_char(' '));
    assert!(!word_char('.'));
    assert!(!word_char('/'));
    assert!(!word_char('$'));
    assert!(!word_char('{'));
    assert!(!word_char('}'));
    assert!(!word_char('💝'));
    let mut input = "café/x";
    assert_eq!(parse_word_str(&mut input), Ok("café"));
    assert_eq!(input, "/x");
    let mut input = "${été}";
    assert_eq!(parse_variable(&mut input), Ok(Variable::new("été")));
    assert_eq!(input, "");
    let mut input = "٣x";
    assert_eq!(parse_variable_name(&mut input), Err(VarPathError::ParseError));
    assert_eq!(
        VarPath::parse("/données/$clé")
            .unwrap()
            .eval(&lookup(&[("clé", "v")]))
            .unwrap()
            .to_str(),
        Some("/données/v")
    );
}

#[test]
fn character_classes() {
    assert!(word_special_chars('_'));
    assert!(word_special_chars('-'));
    assert!(!word_special_chars('a'));
    assert!(!word_special_chars('+'));
    assert!(grammar_mark('/'));
    assert!(grammar_mark('$'));
    assert!(grammar_mark('{'));
    assert!(grammar_mark('}'));
    assert!(!grammar_mark('a'));
    assert!(!grammar_mark('_'));
    assert!(word_class('a', true));
    assert!(word_class('_', false));
    assert!(!word_class('+', false));
    assert!(!word_class('/', true));
    assert!(!word_class('$', false));
}

#[test]
fn failed_parsers_leave_the_input_alone() {
    let mut input = " abc";
    assert_eq!(parse_word_str(&mut input), Err(VarPathError::ParseError));
    assert_eq!(input, " abc");
    let mut input = "";
    assert_eq!(parse_word(&mut input), Err(VarPathError::ParseError));
    assert_eq!(parse_word_enum(&mut input), Err(VarPathError::ParseError));
    assert_eq!(parse_variable_enum(&mut input), Err(VarPathError::ParseError));
    assert_eq!(parse_path_part(&mut input), Err(VarPathError::ParseError));
    assert_eq!(parse_path_separator(&mut input), Err(VarPathError::ParseError));
    assert_eq!(parse_open_tag(&mut input), Err(VarPathError::ParseError));
    assert_eq!(parse_close_tag(&mut input), Err(VarPathError::ParseError));
    assert_eq!(input, "");
    let mut input = "$x";
    assert_eq!(parse_open_tag(&mut input), Err(VarPathError::ParseError));
    assert_eq!(parse_complex_variable(&mut input), Err(VarPathError::ParseError));
    assert_eq!(parse_path_separator(&mut input), Err(VarPathError::ParseError));
    assert_eq!(input, "$x");
    let mut input = "${}";
    assert_eq!(parse_complex_variable(&mut input), Err(VarPathError::ParseError));
    assert_eq!(parse_variable(&mut input), Err(VarPathError::ParseError));
    assert_eq!(parse_path_part(&mut input), Err(VarPathError::ParseError));
    assert_eq!(input, "${}");
    let mut input = "/$";
    assert_eq!(
        parse_path_part_with_leading_separator(&mut input),
        Err(VarPathError::ParseError)
    );
    assert_eq!(input, "/$");
    let mut input = "a/b";
    assert_eq!(
        parse_path_part_with_leading_separator(&mut input),
        Err(VarPathError::ParseError)
    );
    assert_eq!(input, "a/b");
}

#[test]
fn part_parsers_consume_what_they_match() {
    let mut input = "abc/def";
    assert_eq!(parse_word(&mut input), Ok(Word::new("abc")));
    assert_eq!(input, "/def");
    assert_eq!(parse_path_separator(&mut input), Ok(()));
    assert_eq!(input, "def");
    let mut input = "abc/def";
    assert_eq!(parse_word_enum(&mut input), Ok(word("abc")));
    assert_eq!(
        parse_path_part_with_leading_separator(&mut input),
        Ok(word("def"))
    );
    assert_eq!(input, "");
    let mut input = "${v}/w";
    assert_eq!(parse_variable_enum(&mut input), Ok(variable("v")));
    assert_eq!(input, "/w");
    let mut input = "$v/w";
    assert_eq!(parse_path_part(&mut input), Ok(variable("v")));
    assert_eq!(input, "/w");
    let mut input = "w/$v";
    assert_eq!(parse_path_part(&mut input), Ok(word("w")));
    assert_eq!(input, "/$v");
    assert!(at_open_tag("${x"));
    assert!(!at_open_tag("$x"));
    assert!(!at_open_tag("$"));
    assert!(!at_open_tag(""));
    let mut input = "${rest";
    assert_eq!(parse_open_tag(&mut input), Ok("${"));
    assert_eq!(input, "rest");
    let mut input = "}rest";
    assert_eq!(parse_close_tag(&mut input), Ok("}"));
    assert_eq!(input, "rest");
}

#[test]
fn path_parser_stops_where_the_grammar_ends() {
    let mut input = "a/b c";
    assert_eq!(
        parse_path_parts(&mut input),
        Ok((false, vec![word("a"), word("b")], false))
    );
    assert_eq!(input, " c");
    let mut input = "/a//b";
    assert_eq!(parse_path_parts(&mut input), Ok((true, vec![word("a")], true)));
    assert_eq!(input, "/b");
    let mut input = "?";
    assert_eq!(parse_path_parts(&mut input), Ok((true, vec![], false)));
    assert_eq!(input, "?");
    let mut input = "/a/$b/ rest";
    assert_eq!(
        parse_varpath(&mut input),
        Ok(VarPath::new(vec![word("a"), variable("b")], true, true))
    );
    assert_eq!(input, " rest");
}

#[test]
fn canonical_text_uses_the_braced_form() {
    assert_eq!(VarPath::parse("/a/$key/c").unwrap().render(), "/a/${key}/c");
    assert_eq!(VarPath::parse("/a/${key}/c/").unwrap().render(), "/a/${key}/c/");
    assert_eq!(VarPath::parse("a/b").unwrap().render(), "a/b");
    assert_eq!(VarPath::parse("$a").unwrap().render(), "${a}");
    assert_eq!(VarPath::parse("a/").unwrap().render(), "a/");
    assert_eq!(VarPath::parse("").unwrap().render(), "");
    assert_eq!(VarPath::parse("/").unwrap().render(), "/");
}

#[test]
fn canonical_text_parses_to_the_same_path() {
    for text in ["", "/", "a", "/a", "a/", "/a/", "$x", "/${x}/y/$z/", "a-b/_c/${d-e}"] {
        let path = VarPath::parse(text).unwrap();
        assert_eq!(VarPath::parse(&path.render()), Ok(path), "{}", text);
    }
}

#[test]
fn flags_follow_the_separators_of_the_text() {
    for text in ["a", "/a", "a/", "/a/", "$x/y", "/${x}/y/", "/"] {
        let path = VarPath::parse(text).unwrap();
        assert_eq!(path.leading_slash(), text.starts_with('/'), "{}", text);
        assert_eq!(path.trailing_slash(), text.ends_with('/'), "{}", text);
        assert_eq!(path.parts().is_empty(), text == "/", "{}", text);
    }
}

#[test]
fn constructors_keep_what_they_are_given() {
    assert_eq!(Word::new("abc").value(), "abc");
    assert_eq!(Variable::new("abc").name(), "abc");
    let path = VarPath::new(vec![word("a"), variable("b")], false, true);
    assert_eq!(path.parts().len(), 2);
    assert_eq!(path.parts()[0], word("a"));
    assert_eq!(path.parts()[1], variable("b"));
    assert!(!path.leading_slash());
    assert!(path.trailing_slash());
}

#[test]
fn environment_keeps_the_last_value_of_a_name() {
    let mut env = Environment::new();
    assert_eq!(env.get("k"), None);
    env.insert(String::from("k"), String::from("1"));
    assert_eq!(env.get("k"), Some(&String::from("1")));
    env.insert(String::from("k"), String::from("2"));
    assert_eq!(env.get("k"), Some(&String::from("2")));
    assert_eq!(env.get("K"), None);
    let built = EnvironmentBuilder::default()
        .set("a", "1")
        .set("b", "2")
        .set("a", "3")
        .build();
    assert_eq!(built.get("a"), Some(&String::from("3")));
    assert_eq!(built.get("b"), Some(&String::from("2")));
    assert_eq!(built.get("c"), None);
    assert_eq!(EnvironmentBuilder::default().build().get("a"), None);
}

#[test]
fn variable_evaluates_to_its_value_or_names_itself() {
    let env = lookup(&[("TEST", "test")]);
    assert_eq!(Variable::new("TEST").eval(&env), Ok(String::from("test")));
    assert_eq!(
        Variable::new("test").eval(&env),
        Err(EvalError::UndefinedVariable(String::from("test")))
    );
}

#[test]
fn parts_resolve_to_their_texts_in_order() {
    let path = VarPath::parse("/a/$X/b/${Y}/").unwrap();
    assert_eq!(
        path.resolve(&lookup(&[("X", "x"), ("Y", "/y")])),
        Ok(vec![
            String::from("a"),
            String::from("x"),
            String::from("b"),
            String::from("/y")
        ])
    );
    assert_eq!(
        path.resolve(&lookup(&[("X", "x")])),
        Err(EvalError::UndefinedVariable(String::from("Y")))
    );
    assert_eq!(VarPath::parse("").unwrap().resolve(&lookup(&[])), Ok(vec![]));
}

#[test]
fn components_are_joined_from_the_chosen_root() {
    let components = [String::from("a"), String::from("b")];
    assert_eq!(join_path(true, &components).to_str(), Some("/a/b"));
    assert_eq!(join_path(false, &components).to_str(), Some("a/b"));
    assert_eq!(join_path(true, &[]).to_str(), Some("/"));
    assert_eq!(join_path(false, &[]).to_str(), Some(""));
    let replaced = [String::from("a"), String::from("/b"), String::from("c")];
    assert_eq!(join_path(false, &replaced).to_str(), Some("/b/c"));
}
