use dotenv_parser::parse_line;
use dotenv_parser::Environment;
use dotenv_parser::Error;
use dotenv_parser::SubstitutionTable;
use dotenv_parser::ValueState;

fn parse_one(line: &str) -> Result<Option<(String, String)>, Error> {
    let env = Environment::new();
    let mut table = SubstitutionTable::new();
    parse_line(line, &mut table, &env)
}

fn expect_pair(line: &str, key: &str, value: &str) {
    let pair = parse_one(line).unwrap().unwrap();
    assert_eq!(pair.0, key);
    assert_eq!(pair.1, value);
}

fn expect_error_at(line: &str, text: &str, index: usize) {
    match parse_one(line) {
        Err(Error::LineParse(t, i)) => {
            assert_eq!(t, text);
            assert_eq!(i, index);
        }
        other => panic!("expected a parse error, got {other:?}"),
    }
}

#[test]
fn plain_pair_is_returned_exactly() {
    expect_pair("KEY=value", "KEY", "value");
    expect_pair("  K_2.x=abc-def", "K_2.x", "abc-def");
}

#[test]
fn strong_quotes_are_literal() {
    expect_pair("KEY='literal $X'", "KEY", "literal $X");
}

#[test]
fn weak_quotes_substitute_from_table() {
    let env = Environment::new();
    let mut table = SubstitutionTable::new();
    assert!(table.insert("KEY", Some("value")));
    let pair = parse_line(r#"K="a${KEY}b""#, &mut table, &env)
        .unwrap()
        .unwrap();
    assert_eq!(pair.0, "K");
    assert_eq!(pair.1, "avalueb");
}

#[test]
fn undefined_substitution_expands_to_empty() {
    expect_pair("K=$UNDEFINED", "K", "");
    expect_pair("K=${UNDEFINED}", "K", "");
}

#[test]
fn environment_overrides_table() {
    let mut env = Environment::new();
    assert!(env.insert("KEY", "env_val"));
    let mut table = SubstitutionTable::new();
    assert!(table.insert("KEY", Some("table_val")));
    let pair = parse_line("K=$KEY", &mut table, &env).unwrap().unwrap();
    assert_eq!(pair.1, "env_val");
    let pair2 = parse_line("K2=${KEY}", &mut table, &env).unwrap().unwrap();
    assert_eq!(pair2.1, "env_val");
}

#[test]
fn escaped_space_and_newline() {
    expect_pair(r"K=a\ b", "K", "a b");
    expect_pair(r"K=a\nb", "K", "a\nb");
}

#[test]
fn unsupported_escape_fails_at_its_index() {
    expect_error_at(r"K=a\zb", r"K=a\zb", 4);
}

#[test]
fn export_prefix_and_export_key() {
    expect_pair("export KEY=1", "KEY", "1");
    expect_pair("KEY=1", "KEY", "1");
    expect_pair("export=literal", "export", "literal");
}

#[test]
fn unterminated_quotes_point_at_final_index() {
    expect_error_at(r#"K="unterminated"#, r#"K="unterminated"#, 14);
    expect_error_at("K='unterminated", "K='unterminated", 14);
    expect_error_at("K=${unterminated", "K=${unterminated", 15);
}

#[test]
fn whitespace_after_value_rule() {
    expect_pair("K=v #comment", "K", "v");
    expect_pair("K=v#comment", "K", "v#comment");
    expect_error_at("K=v w", "K=v w", 4);
}

#[test]
fn key_must_start_with_letter_or_underscore() {
    expect_error_at(".Key=v", ".Key=v", 0);
    expect_error_at("1KEY=v", "1KEY=v", 0);
    assert!(parse_one("").unwrap().is_none());
    assert!(parse_one("   ").unwrap().is_none());
    assert!(parse_one("# a comment").unwrap().is_none());
    assert!(parse_one("  # indented comment").unwrap().is_none());
}

#[test]
fn substitution_is_backward_looking() {
    let env = Environment::new();
    let mut table = SubstitutionTable::new();
    let p1 = parse_line("KEY1=a", &mut table, &env).unwrap().unwrap();
    assert_eq!(p1, ("KEY1".to_string(), "a".to_string()));
    let p2 = parse_line("KEY2=${KEY1}b", &mut table, &env).unwrap().unwrap();
    assert_eq!(p2, ("KEY2".to_string(), "ab".to_string()));

    let mut reversed = SubstitutionTable::new();
    let q1 = parse_line("KEY2=${KEY1}b", &mut reversed, &env)
        .unwrap()
        .unwrap();
    assert_eq!(q1, ("KEY2".to_string(), "b".to_string()));
}

#[test]
fn missing_equal_sign_fails() {
    expect_error_at("KEY", "KEY", 3);
    expect_error_at("KEY value", "KEY value", 4);
}

#[test]
fn empty_value_with_comment() {
    expect_pair("KEY=", "KEY", "");
    expect_pair("KEY=   # trailing", "KEY", "");
}

#[test]
fn double_dollar_restarts_substitution() {
    let env = Environment::new();
    let mut table = SubstitutionTable::new();
    assert!(table.insert("KEY", Some("x")));
    let pair = parse_line("K=$$KEY", &mut table, &env).unwrap().unwrap();
    assert_eq!(pair.1, "x");
}

#[test]
fn trailing_dollar_expands_to_nothing() {
    expect_pair("K=abc$", "K", "abc");
}

#[test]
fn dollar_name_ending_at_weak_quote_leaves_quote_unclosed() {
    expect_error_at(r#"K="$A""#, r#"K="$A""#, 5);
}

#[test]
fn errors_carry_the_right_trimmed_line() {
    expect_error_at("K=\"x   ", "K=\"x", 3);
    expect_error_at(r"   K=\q   ", r"   K=\q", 6);
}

#[test]
fn table_records_declared_and_valued_keys() {
    let env = Environment::new();
    let mut table = SubstitutionTable::new();
    parse_line("A=1", &mut table, &env).unwrap();
    parse_line("B=", &mut table, &env).unwrap();
    assert_eq!(table.get("A"), Some(Some("1".to_string())));
    assert_eq!(table.get("B"), Some(None));
    assert_eq!(table.get("C"), None);
}

#[test]
fn table_is_unchanged_by_failed_lines() {
    let env = Environment::new();
    let mut table = SubstitutionTable::new();
    parse_line("A=1", &mut table, &env).unwrap();
    assert!(parse_line("B=\"oops", &mut table, &env).is_err());
    assert_eq!(table.get("A"), Some(Some("1".to_string())));
    assert_eq!(table.get("B"), None);
}

#[test]
fn environment_lookup_reports_presence() {
    let mut env = Environment::new();
    assert!(env.insert("NAME", "value"));
    assert_eq!(env.get("NAME"), Some("value".to_string()));
    assert_eq!(env.get("OTHER"), None);
    assert!(!env.insert("", "nothing"));
}

#[test]
fn value_state_appends_characters() {
    let mut state = ValueState::new();
    assert_eq!(state.output(), "");
    state.append('a');
    state.append('b');
    assert_eq!(state.output(), "ab");
}

#[test]
fn unicode_characters_pass_through() {
    expect_pair("K=héllo", "K", "héllo");
    expect_pair("K='αβ γ'", "K", "αβ γ");
}

#[test]
fn unicode_name_is_substituted() {
    let env = Environment::new();
    let mut table = SubstitutionTable::new();
    assert!(table.insert("αβ", Some("x")));
    let pair = parse_line("K=$αβ!", &mut table, &env).unwrap().unwrap();
    assert_eq!(pair.1, "x!");
}
