use std::convert::TryFrom;

use sql_statements::comments::without_comments;
use sql_statements::statements::{reserved_command_message, reserved_keyword, statement_command};
use sql_statements::text::{chars_of, is_whitespace, string_of, trim_chars};
use sql_statements::{parse, Parser, ReservedCommand, ScanMode, Statement, StatementGroup};

fn texts(input: &str) -> Vec<String> {
    parse(input).unwrap().into_iter().map(|s| s.0).collect()
}

fn chars(s: &str) -> Vec<char> {
    s.chars().collect()
}

#[test]
fn blank_scripts_give_no_statements() {
    for input in [";", ";;;", "\t;\r\n; \u{a0} ;\u{3000}", "\n\n\n", " \r\n "] {
        assert_eq!(parse(input).unwrap(), Vec::<Statement>::new(), "{:?}", input);
    }
}

#[test]
fn single_statement_comes_back_trimmed() {
    assert_eq!(texts("  select 'a;b' from \"x;y\"  "), vec!["select 'a;b' from \"x;y\""]);
    assert_eq!(texts("\u{2003}x = 1\t"), vec!["x = 1"]);
}

#[test]
fn semicolons_split_only_outside_quotes() {
    assert_eq!(texts("a;b"), vec!["a", "b"]);
    assert_eq!(texts("'a;b'"), vec!["'a;b'"]);
    assert_eq!(texts("\"a;b\""), vec!["\"a;b\""]);
    assert_eq!(texts("'x' ; \"y\" ; z"), vec!["'x'", "\"y\"", "z"]);
}

#[test]
fn whitespace_only_fragments_are_dropped() {
    assert_eq!(texts("  one thing  ; two things "), vec!["one thing", "two things"]);
    assert_eq!(texts(" ; a ;  ; b ; "), vec!["a", "b"]);
}

#[test]
fn quote_in_other_quote_does_not_toggle() {
    assert_eq!(texts(r#"'";'""#), vec![r#"'";'""#]);
    assert_eq!(texts(r#""';"'"#), vec![r#""';"'"#]);
}

#[test]
fn closed_string_splits_again() {
    assert_eq!(texts(r#"'"';""#), vec![r#"'"'"#, "\""]);
}

#[test]
fn unterminated_quote_is_no_error() {
    assert_eq!(texts("a; 'b; c"), vec!["a", "'b; c"]);
    assert_eq!(texts("\"b; c"), vec!["\"b; c"]);
}

#[test]
fn keyword_needs_no_word_boundary() {
    assert_eq!(parse("beginning"), Err("BEGIN command is not supported in a revision".to_string()));
    assert_eq!(parse("Committee;"), Err("COMMIT command is not supported in a revision".to_string()));
    assert_eq!(texts("a begin"), vec!["a begin"]);
    assert_eq!(texts("'begin'"), vec!["'begin'"]);
}

#[test]
fn first_offender_is_reported() {
    assert_eq!(
        parse("select 1; commit; begin"),
        Err("COMMIT command is not supported in a revision".to_string())
    );
}

#[test]
fn comment_lines_are_removed() {
    assert_eq!(texts("-- a ; b\nselect 1;\n   -- 'c\nselect 2"), vec!["select 1", "select 2"]);
    assert_eq!(texts("-- begin;\nx"), vec!["x"]);
    assert_eq!(texts("select\n-- ;\n1"), vec!["select\n1"]);
}

#[test]
fn line_endings() {
    assert_eq!(texts("one\r\ntwo;three"), vec!["one\ntwo", "three"]);
    assert_eq!(texts("x\r"), vec!["x"]);
}

#[test]
fn filter_keeps_lines_with_newlines() {
    assert_eq!(without_comments(&chars("a\r\n-- c\nb")), chars("a\nb\n"));
    assert_eq!(without_comments(&chars("")), chars(""));
    assert_eq!(without_comments(&chars("\n")), chars("\n"));
    assert_eq!(without_comments(&chars("a\r")), chars("a\r\n"));
}

#[test]
fn reserved_keyword_on_lowered_text() {
    assert_eq!(reserved_keyword("begin"), Some(ReservedCommand::Begin));
    assert_eq!(reserved_keyword("savepoint x"), Some(ReservedCommand::Savepoint));
    assert_eq!(reserved_keyword("rollbacks"), Some(ReservedCommand::Rollback));
    assert_eq!(reserved_keyword("commit"), Some(ReservedCommand::Commit));
    assert_eq!(reserved_keyword("BEGIN"), None);
    assert_eq!(reserved_keyword("begi"), None);
    assert_eq!(reserved_keyword(" begin"), None);
    assert_eq!(reserved_keyword(""), None);
}

#[test]
fn statement_command_lowers_first_chars() {
    assert_eq!(statement_command(&chars("BeGiN")), Some(ReservedCommand::Begin));
    assert_eq!(statement_command(&chars("SAVEPOINT a")), Some(ReservedCommand::Savepoint));
    assert_eq!(statement_command(&chars("ROLLBACKxyz")), Some(ReservedCommand::Rollback));
    assert_eq!(statement_command(&chars("select 1")), None);
}

#[test]
fn error_messages() {
    assert_eq!(
        reserved_command_message(ReservedCommand::Savepoint),
        "SAVEPOINT command is not supported in a revision"
    );
    assert_eq!(ReservedCommand::Rollback.name(), "ROLLBACK");
    assert_eq!(ReservedCommand::Commit.keyword_chars(), chars("commit"));
}

#[test]
fn parser_accepts_one_char_at_a_time() {
    let mut p = Parser::new();
    assert_eq!(p.mode(), ScanMode::Unquoted);
    for c in "a'b;".chars() {
        p.accept(c);
    }
    assert_eq!(p.mode(), ScanMode::InString);
    p.accept('\'');
    p.accept('"');
    assert_eq!(p.mode(), ScanMode::InDelimitedIdentifier);
    p.accept('\'');
    assert_eq!(p.mode(), ScanMode::InDelimitedIdentifier);
    p.accept('"');
    p.accept(';');
    p.accept('c');
    assert_eq!(p.mode(), ScanMode::Unquoted);
    assert_eq!(p.into_fragments(), vec![chars("a'b;'\"'\""), chars("c")]);
}

#[test]
fn statement_group_from_text() {
    let g = StatementGroup::try_from("x; y").unwrap();
    assert_eq!(g.len(), 2);
    let got: Vec<&Statement> = g.iter().collect();
    assert_eq!(got, vec![&Statement("x".to_string()), &Statement("y".to_string())]);
    assert_eq!(
        StatementGroup::parse("commit").unwrap_err(),
        "COMMIT command is not supported in a revision"
    );
    assert!(StatementGroup::try_from("rollback").is_err());
}

#[test]
fn text_helpers() {
    assert_eq!(trim_chars(&chars(" \t\u{85}a b\u{2028} ")), chars("a b"));
    assert_eq!(trim_chars(&chars("   ")), chars(""));
    assert!(is_whitespace('\u{3000}'));
    assert!(!is_whitespace('\u{200b}'));
    assert_eq!(chars_of("héllo"), chars("héllo"));
    assert_eq!(string_of(&chars("ab;c")), "ab;c");
}

#[test]
fn multi_line_statement_comes_back_whole() {
    assert_eq!(
        texts("  select 'a;\nb'\n  from \"t;\"\n"),
        vec!["select 'a;\nb'\n  from \"t;\""]
    );
}

#[test]
fn quoted_semicolons_are_all_kept() {
    let got = texts("a ';' ; b \";;\" ; ';");
    assert_eq!(got, vec!["a ';'", "b \";;\"", "';"]);
    let kept: usize = got.iter().map(|s| s.matches(';').count()).sum();
    assert_eq!(kept, 4);
}

#[test]
fn statement_group_iter_yields_in_order() {
    let g = StatementGroup::try_from("one; two; three").unwrap();
    let mut it = g.iter();
    assert_eq!(it.next(), Some(&Statement("one".to_string())));
    assert_eq!(it.next(), Some(&Statement("two".to_string())));
    assert_eq!(it.next(), Some(&Statement("three".to_string())));
    assert_eq!(it.next(), None);
}
