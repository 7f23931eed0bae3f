use sql_statements::{parse, Statement};

fn err(cmd: &str) -> Result<Vec<Statement>, String> {
    Err(format!("{} command is not supported in a revision", cmd))
}

#[test]
fn test_parse_empty() {
    let empty: Vec<Statement> = vec![];

    assert_eq!(parse("").unwrap(), empty);
    assert_eq!(parse("  ").unwrap(), empty);
    assert_eq!(parse("  \n  \n  ").unwrap(), empty);
    assert_eq!(parse(" ;; ; ;  ;").unwrap(), empty);
}

#[test]
fn test_single() {
    assert_eq!(
        parse("anything really, does not matter").unwrap(),
        vec![Statement("anything really, does not matter".to_string())],
    );
}

#[test]
fn test_single_with_embedded_semicolons() {
    assert_eq!(
        parse("one thing ';' and two things \";\"").unwrap(),
        vec![Statement("one thing ';' and two things \";\"".to_string())],
    );
}

#[test]
fn test_multiple_without_embedded() {
    assert_eq!(
        parse("  one thing  ; two things ").unwrap(),
        vec![
            Statement("one thing".to_string()),
            Statement("two things".to_string()),
        ],
    );
}

#[test]
fn test_quoted_with_semicolons() {
    assert_eq!(
        parse(r#" '";'"  "#).unwrap(),
        vec![Statement(r#"'";'""#.to_string())]
    );
    assert_eq!(
        parse(r#" '"';"  "#).unwrap(),
        vec![
            Statement(r#"'"'"#.to_string()),
            Statement(r#"""#.to_string()),
        ]
    );
    assert_eq!(
        parse(r#" a ';' b ";" c '";"' d "';'" e    "#).unwrap(),
        vec![Statement(r#"a ';' b ";" c '";"' d "';'" e"#.to_string())]
    );
}

#[test]
fn test_inline_comments_with_semicolons() {
    // own line: dropped whole, its semicolons play no part
    assert_eq!(
        parse("-- first; second\none;\n  -- ; third\ntwo").unwrap(),
        vec![Statement("one".to_string()), Statement("two".to_string())],
    );
    // trailing: only whole lines are comments, so this one is split
    assert_eq!(
        parse("one; -- x; y").unwrap(),
        vec![
            Statement("one".to_string()),
            Statement("-- x".to_string()),
            Statement("y".to_string()),
        ],
    );
}

#[test]
fn test_block_comments_with_semicolons() {
    // block comments are not recognised: their semicolons split
    assert_eq!(
        parse("/* a; b */ c").unwrap(),
        vec![Statement("/* a".to_string()), Statement("b */ c".to_string())],
    );
    assert_eq!(
        parse("/*\na;\n*/").unwrap(),
        vec![Statement("/*\na".to_string()), Statement("*/".to_string())],
    );
}

#[test]
fn test_errors_from_transaction_commands() {
    assert_eq!(parse(" beGIN "), err("BEGIN"));
    assert_eq!(parse("one; begin; two"), err("BEGIN"));
    assert_eq!(parse("ONE; BEGIN; TWO"), err("BEGIN"));

    assert_eq!(parse("  savEPOint "), err("SAVEPOINT"));
    assert_eq!(parse("one; savepoint; two"), err("SAVEPOINT"));
    assert_eq!(parse("ONE; SAVEPOINT; TWO"), err("SAVEPOINT"));

    assert_eq!(parse("  rOLLBack "), err("ROLLBACK"));
    assert_eq!(parse("one; rollback; two"), err("ROLLBACK"));
    assert_eq!(parse("ONE; ROLLBACK; TWO"), err("ROLLBACK"));

    assert_eq!(parse("  coMMIt "), err("COMMIT"));
    assert_eq!(parse("one; commit; two"), err("COMMIT"));
    assert_eq!(parse("ONE; COMMIT; TWO"), err("COMMIT"));

    assert_eq!(parse("begin; rollback; savepoint; commit"), err("BEGIN"));
    assert_eq!(parse("rollback; begin; savepoint; commit"), err("ROLLBACK"));
    assert_eq!(parse("savepoint; begin; rollback; commit"), err("SAVEPOINT"));
    assert_eq!(parse("commit; begin; rollback; commit"), err("COMMIT"));
}
