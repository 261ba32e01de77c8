use dotenv_parser::parse_line;
use dotenv_parser::Environment;
use dotenv_parser::Error;
use dotenv_parser::SubstitutionTable;

/// Parse every line of `input` in order against one shared substitution
/// table and an empty environment, keeping one result per non-blank,
/// non-comment line.
fn parse_all(input: &str) -> Vec<Result<(String, String), Error>> {
    let env = Environment::new();
    let mut table = SubstitutionTable::new();
    let mut out: Vec<Result<(String, String), Error>> = Vec::new();
    for line in input.split('\n') {
        match parse_line(line, &mut table, &env) {
            Ok(None) => {}
            Ok(Some(pair)) => out.push(Ok(pair)),
            Err(e) => out.push(Err(e)),
        }
    }
    out
}

fn assert_parsed_string(input_string: &str, expected_parse_result: Vec<(&str, &str)>) {
    let actual_iter = parse_all(input_string).into_iter();
    let expected_count = &expected_parse_result.len();

    let expected_iter = expected_parse_result
        .into_iter()
        .map(|(key, value)| (key.to_string(), value.to_string()));

    let mut count: usize = 0;

    for (expected, actual) in expected_iter.zip(actual_iter) {
        assert!(actual.is_ok());
        assert_eq!(expected, actual.ok().unwrap());
        count += 1;
    }

    assert_eq!(count, *expected_count);
}

#[test]
fn test_parse_line_env() {
    // Note 5 spaces after 'KEY8=' below
    let actual_iter = parse_all(
        r#"
KEY=1
KEY2="2"
KEY3='3'
KEY4='fo ur'
KEY5="fi ve"
KEY6=s\ ix
KEY7=
KEY8=     
KEY9=   # foo
KEY10  ="whitespace before ="
KEY11=    "whitespace after ="
export="export as key"
export   SHELL_LOVER=1
"#,
    )
    .into_iter();

    let expected_iter = vec![
        ("KEY", "1"),
        ("KEY2", "2"),
        ("KEY3", "3"),
        ("KEY4", "fo ur"),
        ("KEY5", "fi ve"),
        ("KEY6", "s ix"),
        ("KEY7", ""),
        ("KEY8", ""),
        ("KEY9", ""),
        ("KEY10", "whitespace before ="),
        ("KEY11", "whitespace after ="),
        ("export", "export as key"),
        ("SHELL_LOVER", "1"),
    ]
    .into_iter()
    .map(|(key, value)| (key.to_string(), value.to_string()));

    let mut count: usize = 0;
    for (expected, actual) in expected_iter.zip(actual_iter) {
        assert!(actual.is_ok());
        assert_eq!(expected, actual.ok().unwrap());
        count += 1;
    }

    assert_eq!(count, 13);
}

#[test]
fn test_parse_line_comment() {
    let result: Result<Vec<(String, String)>, Error> = parse_all(
        r"
# foo=bar
#    ",
    )
    .into_iter()
    .collect();
    assert!(result.unwrap().is_empty());
}

#[test]
fn test_parse_line_invalid() {
    // Note 4 spaces after 'invalid' below
    let actual_iter = parse_all(
        r"
  invalid    
very bacon = yes indeed
=value",
    )
    .into_iter();

    let mut count: usize = 0;
    for actual in actual_iter {
        assert!(actual.is_err());
        count += 1;
    }
    assert_eq!(count, 3);
}

#[test]
fn test_parse_value_escapes() {
    let actual_iter = parse_all(
        r#"
KEY=my\ cool\ value
KEY2=\$sweet
KEY3="awesome stuff \"mang\""
KEY4='sweet $\fgs'\''fds'
KEY5="'\"yay\\"\ "stuff"
KEY6="lol" #well you see when I say lol wh
KEY7="line 1\nline 2"
"#,
    )
    .into_iter();

    let expected_iter = vec![
        ("KEY", r"my cool value"),
        ("KEY2", r"$sweet"),
        ("KEY3", r#"awesome stuff "mang""#),
        ("KEY4", r"sweet $\fgs'fds"),
        ("KEY5", r#"'"yay\ stuff"#),
        ("KEY6", "lol"),
        ("KEY7", "line 1\nline 2"),
    ]
    .into_iter()
    .map(|(key, value)| (key.to_string(), value.to_string()));

    for (expected, actual) in expected_iter.zip(actual_iter) {
        assert!(actual.is_ok());
        assert_eq!(expected, actual.unwrap());
    }
}

#[test]
fn test_parse_value_escapes_invalid() {
    let actual_iter = parse_all(
        r#"
KEY=my uncool value
KEY2="why
KEY3='please stop''
KEY4=h\8u
"#,
    )
    .into_iter();

    for actual in actual_iter {
        assert!(actual.is_err());
    }
}

#[test]
fn variable_in_parenthesis_surrounded_by_quotes() {
    assert_parsed_string(
        r#"
            KEY=test
            KEY1="${KEY}"
            "#,
        vec![("KEY", "test"), ("KEY1", "test")],
    );
}

#[test]
fn substitute_undefined_variables_to_empty_string() {
    assert_parsed_string(r#"KEY=">$KEY1<>${KEY2}<""#, vec![("KEY", "><><")]);
}

#[test]
fn do_not_substitute_variables_with_dollar_escaped() {
    assert_parsed_string(
        "KEY=>\\$KEY1<>\\${KEY2}<",
        vec![("KEY", ">$KEY1<>${KEY2}<")],
    );
}

#[test]
fn do_not_substitute_variables_in_weak_quotes_with_dollar_escaped() {
    assert_parsed_string(
        r#"KEY=">\$KEY1<>\${KEY2}<""#,
        vec![("KEY", ">$KEY1<>${KEY2}<")],
    );
}

#[test]
fn do_not_substitute_variables_in_strong_quotes() {
    assert_parsed_string("KEY='>${KEY1}<>$KEY2<'", vec![("KEY", ">${KEY1}<>$KEY2<")]);
}

#[test]
fn same_variable_reused() {
    assert_parsed_string(
        r"
    KEY=VALUE
    KEY1=$KEY$KEY
    ",
        vec![("KEY", "VALUE"), ("KEY1", "VALUEVALUE")],
    );
}

#[test]
fn with_dot() {
    assert_parsed_string(
        r"
    KEY.Value=VALUE
    ",
        vec![("KEY.Value", "VALUE")],
    );
}

#[test]
fn recursive_substitution() {
    assert_parsed_string(
        r"
            KEY=${KEY1}+KEY_VALUE
            KEY1=${KEY}+KEY1_VALUE
            ",
        vec![("KEY", "+KEY_VALUE"), ("KEY1", "+KEY_VALUE+KEY1_VALUE")],
    );
}

#[test]
fn variable_without_parenthesis_is_substituted_before_separators() {
    assert_parsed_string(
        r#"
            KEY1=test_user
            KEY1_1=test_user_with_separator
            KEY=">$KEY1_1<>$KEY1}<>$KEY1{<"
            "#,
        vec![
            ("KEY1", "test_user"),
            ("KEY1_1", "test_user_with_separator"),
            ("KEY", ">test_user_1<>test_user}<>test_user{<"),
        ],
    );
}

#[test]
fn consequent_substitutions() {
    assert_parsed_string(
        r"
    KEY1=test_user
    KEY2=$KEY1_2
    KEY=>${KEY1}<>${KEY2}<
    ",
        vec![
            ("KEY1", "test_user"),
            ("KEY2", "test_user_2"),
            ("KEY", ">test_user<>test_user_2<"),
        ],
    );
}

#[test]
fn consequent_substitutions_with_one_missing() {
    assert_parsed_string(
        r"
    KEY2=$KEY1_2
    KEY=>${KEY1}<>${KEY2}<
    ",
        vec![("KEY2", "_2"), ("KEY", "><>_2<")],
    );
}

#[test]
fn should_not_parse_unfinished_substitutions() {
    let wrong_value = ">${KEY{<";
    let wrong_line = format!("    KEY1={wrong_value}");

    let parsed_values: Vec<_> = parse_all(&format!(
        r"
    KEY=VALUE
{wrong_line}
    "
    ));

    assert_eq!(parsed_values.len(), 2);

    parsed_values[0].as_ref().map_or_else(
        |_| panic!("Expected the first value to be parsed"),
        |first_line| assert_eq!(first_line, &(String::from("KEY"), String::from("VALUE"))),
    );

    if let Err(Error::LineParse(second_value, index)) = &parsed_values[1] {
        assert_eq!(second_value, &wrong_line);
        assert_eq!(*index, wrong_line.len() - 1);
    }
}

#[test]
fn should_not_allow_dot_as_first_character_of_key() {
    let wrong_key_value = ".Key=VALUE";

    let parsed_values: Vec<_> = parse_all(wrong_key_value);

    assert_eq!(parsed_values.len(), 1);

    if let Err(Error::LineParse(second_value, index)) = &parsed_values[0] {
        assert_eq!(second_value, wrong_key_value);
        assert_eq!(*index, 0);
    }
}

#[test]
fn should_not_parse_illegal_format() {
    let wrong_format = r"<><><>";
    let parsed_values: Vec<_> = parse_all(wrong_format);

    assert_eq!(parsed_values.len(), 1);

    if let Err(Error::LineParse(wrong_value, index)) = &parsed_values[0] {
        assert_eq!(wrong_value, wrong_format);
        assert_eq!(*index, 0);
    }
}

#[test]
fn should_not_parse_illegal_escape() {
    let wrong_escape = r">\f<";
    let wrong_line = format!("VALUE={wrong_escape}");
    let parsed_values: Vec<_> = parse_all(&wrong_line);

    assert_eq!(parsed_values.len(), 1);

    if let Err(Error::LineParse(wrong_value, index)) = &parsed_values[0] {
        assert_eq!(wrong_value, &wrong_line);
        assert_eq!(*index, wrong_line.find('\\').unwrap() + 1);
    }
}
