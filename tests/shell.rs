use minisql::codec::CodecError;
use minisql::command::{
    do_meta_command, execute_statement, is_meta_command, parse_id, prepare_statement, ExecutionResult,
    MetaCommand, PrepareResult, Statement, StatementType,
};
use minisql::row::Row;
use minisql::table::Table;

fn expect_statement(line: &str) -> Statement {
    match prepare_statement(line) {
        PrepareResult::PrepareSuccess(st) => st,
        other => panic!("unexpected {:?}", other),
    }
}

#[test]
fn meta_commands() {
    assert!(is_meta_command(".exit"));
    assert!(!is_meta_command("select"));
    assert!(!is_meta_command(""));
    assert_eq!(do_meta_command(".exit"), MetaCommand::MetaCommandExit);
    assert_eq!(do_meta_command(".quit"), MetaCommand::MetaCommandExit);
    assert_eq!(do_meta_command(".foo"), MetaCommand::MetaCommandUnrecognizedCommand);
    assert_eq!(do_meta_command(".exit "), MetaCommand::MetaCommandUnrecognizedCommand);
}

#[test]
fn parse_ids() {
    assert_eq!(parse_id("0"), Some(0));
    assert_eq!(parse_id("12345"), Some(12345));
    assert_eq!(parse_id("18446744073709551615"), Some(u64::MAX));
    assert_eq!(parse_id("18446744073709551616"), None);
    assert_eq!(parse_id(""), None);
    assert_eq!(parse_id("-1"), None);
    assert_eq!(parse_id("12a"), None);
    assert_eq!(parse_id("+5"), Some(5));
    assert_eq!(parse_id("+"), None);
    assert_eq!(parse_id("++5"), None);
    assert_eq!(parse_id("5+"), None);
    assert_eq!(parse_id("+18446744073709551615"), Some(u64::MAX));
}

#[test]
fn prepare_insert() {
    let st = expect_statement("  insert   7  carol \t carol@example.com  ");
    assert_eq!(st.stype, StatementType::StatementInsert);
    let r = st.row_to_insert.unwrap();
    assert_eq!(r.id, Some(7));
    assert_eq!(r.username, Some("carol".to_string()));
    assert_eq!(r.email, Some("carol@example.com".to_string()));
}

#[test]
fn prepare_insert_with_plus_id() {
    let st = expect_statement("insert +5 bob b@x");
    assert_eq!(st.stype, StatementType::StatementInsert);
    let r = st.row_to_insert.unwrap();
    assert_eq!(r.id, Some(5));
    assert_eq!(r.username, Some("bob".to_string()));
    assert!(matches!(prepare_statement("insert ++5 bob b@x"), PrepareResult::PrepareSyntaxError));
}

#[test]
fn prepare_select_and_errors() {
    let st = expect_statement("select");
    assert_eq!(st.stype, StatementType::StatementSelect);
    assert!(st.row_to_insert.is_none());
    assert!(matches!(prepare_statement("insert 1 bob"), PrepareResult::PrepareSyntaxError));
    assert!(matches!(prepare_statement("insert x bob b@x"), PrepareResult::PrepareSyntaxError));
    assert!(matches!(prepare_statement("update 1"), PrepareResult::PrepareUnrecognizedStatement));
    assert!(matches!(prepare_statement("   "), PrepareResult::PrepareUnrecognizedStatement));
}

#[test]
fn execute_insert_and_select() {
    let mut t = Table::new();
    let ins = expect_statement("insert 1 ann ann@x");
    let (res, rows) = execute_statement(&ins, &mut t);
    assert_eq!(res, ExecutionResult::Success);
    assert!(rows.is_empty());
    let ins = expect_statement("insert 2 ben ben@x");
    assert_eq!(execute_statement(&ins, &mut t).0, ExecutionResult::Success);
    let (res, rows) = execute_statement(&expect_statement("select"), &mut t);
    assert_eq!(res, ExecutionResult::Success);
    assert_eq!(rows.len(), 2);
    assert_eq!(rows[0].username, Some("ann".to_string()));
    assert_eq!(rows[1].id, Some(2));
    assert_eq!(t.num_rows(), 2);
}

#[test]
fn execute_failures() {
    let mut t = Table::new();
    let line = format!("insert 1 {} e@x", "u".repeat(33));
    let (res, _) = execute_statement(&expect_statement(&line), &mut t);
    assert_eq!(res, ExecutionResult::CodecFailure(CodecError::FieldTooLong));
    let bare = Statement { stype: StatementType::StatementInsert, row_to_insert: None };
    let (res, _) = execute_statement(&bare, &mut t);
    assert_eq!(res, ExecutionResult::CodecFailure(CodecError::MissingField));
    assert_eq!(t.num_rows(), 0);
    for i in 0..1300u64 {
        let st = Statement {
            stype: StatementType::StatementInsert,
            row_to_insert: Some(Row::new(i, "n".to_string(), "e".to_string())),
        };
        assert_eq!(execute_statement(&st, &mut t).0, ExecutionResult::Success);
    }
    let (res, _) = execute_statement(&expect_statement("insert 5 a b"), &mut t);
    assert_eq!(res, ExecutionResult::TableFull);
}

#[test]
fn unicode_whitespace_separates_words() {
    let st = expect_statement("insert\u{3000}8\u{a0}dora\u{2029}d@x\u{85}");
    let r = st.row_to_insert.unwrap();
    assert_eq!(r.id, Some(8));
    assert_eq!(r.username, Some("dora".to_string()));
    assert_eq!(r.email, Some("d@x".to_string()));
    let st = expect_statement("insert 9 zoë\u{200b}z z@x");
    assert_eq!(st.row_to_insert.unwrap().username, Some("zoë\u{200b}z".to_string()));
}
