//! The end-to-end scenarios: statements parsed and run against a
//! table, with the file emulated by the byte image the table flushes.
use btree_db::cursor::Cursor;
use btree_db::statement::Statement;
use btree_db::table::Table;

/// Runs one already-trimmed line against the table, as the shell
/// would: parse it, then dispatch onto a fresh cursor. Returns the
/// selected values, or the error message.
fn run_line(table: &mut Table, line: &str) -> Result<Vec<Vec<u8>>, String> {
    let statement = Statement::parse(line.as_bytes())?;
    match statement {
        Statement::Select => {
            let mut cursor = Cursor::new(table);
            Ok(cursor.select(table))
        }
        Statement::Insert(id, content) => {
            let mut cursor = Cursor::new(table);
            cursor.insert(table, id, content)?;
            Ok(Vec::new())
        }
    }
}

fn fresh_table() -> Table {
    Table::new(Vec::new()).expect("an empty file must open")
}

/// Writes the table out and reopens it from the written bytes, as
/// exiting and restarting the process would.
fn reopen(table: &Table) -> Table {
    let bytes = table.flush_contents();
    Table::new(bytes).expect("a flushed image must reopen")
}

fn contains(values: &[Vec<u8>], needle: &str) -> bool {
    values.iter().any(|v| v == needle.as_bytes())
}

#[test]
fn inserts_data() {
    let mut table = fresh_table();
    run_line(&mut table, "insert 1 hello world!").unwrap();
    let values = run_line(&mut table, "select").unwrap();
    assert!(contains(&values, "hello world!"));
}

#[test]
fn persists_data() {
    let mut table = fresh_table();
    for i in 0..3 {
        run_line(&mut table, &format!("insert {i} {i}data")).unwrap();
    }
    let mut table = reopen(&table);
    let values = run_line(&mut table, "select").unwrap();
    assert!(contains(&values, "1data"));
    assert!(contains(&values, "2data"));
}

#[test]
fn data_in_ascending_order() {
    let mut table = fresh_table();
    for i in (0..3).rev() {
        run_line(&mut table, &format!("insert {i} {i}data")).unwrap();
    }
    let mut table = reopen(&table);
    let values = run_line(&mut table, "select").unwrap();
    assert_eq!(
        values,
        vec![b"0data".to_vec(), b"1data".to_vec(), b"2data".to_vec()],
    );
}

#[test]
fn duplicate_keys_rejected() {
    let mut table = fresh_table();
    run_line(&mut table, "insert 1 some data").unwrap();
    let err = run_line(&mut table, "insert 1 some modified data").unwrap_err();
    assert_eq!(err, "duplicate key");
    let values = run_line(&mut table, "select").unwrap();
    assert!(contains(&values, "some data"));
    assert!(!contains(&values, "some modified data"));
}

#[test]
fn multi_level_trees_support() {
    let mut table = fresh_table();
    for i in 1..140 {
        run_line(&mut table, &format!("insert {i} {i}name")).unwrap();
    }
    let values = run_line(&mut table, "select").unwrap();
    for i in 1..140 {
        let expected = format!("{i}name");
        assert!(contains(&values, &expected), "missing {expected}");
    }
}
