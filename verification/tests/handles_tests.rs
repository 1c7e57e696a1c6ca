use audion::error::AudionError;
use audion::handles::HandleTable;
use audion::sqlite::{builtin_sqlite_close, builtin_sqlite_table_exists, builtin_sqlite_tables, TABLES_SQL};

#[test]
fn handles_are_fresh_and_found_again() {
    let mut t: HandleTable<&str> = HandleTable::new();
    let a = t.store("first");
    let b = t.store("second");
    assert_eq!(a, 1);
    assert_eq!(b, 2);
    assert_eq!(t.get(a), Some(&"first"));
    assert_eq!(t.get(b), Some(&"second"));
    t.remove(a);
    assert_eq!(t.get(a), None);
    assert_eq!(t.get(b), Some(&"second"));
    assert_eq!(t.store("third"), 3);
}

fn runtime_msg<T>(r: Result<T, AudionError>) -> String {
    match r {
        Err(AudionError::RuntimeError { msg }) => msg,
        _ => panic!("expected a runtime error"),
    }
}

#[test]
fn sqlite_handles_and_queries() {
    // A stand-in connection: the names of its tables.
    let mut t: HandleTable<Vec<String>> = HandleTable::new();
    let id = t.store(vec!["notes".to_string(), "songs".to_string()]);
    let list = |c: &Vec<String>, sql: &str| -> Result<Vec<String>, String> {
        assert_eq!(sql, TABLES_SQL);
        Ok(c.clone())
    };
    assert_eq!(builtin_sqlite_tables(&t, id, &list).unwrap(), vec!["notes", "songs"]);
    let failing = |_c: &Vec<String>, _sql: &str| -> Result<Vec<String>, String> { Err("disk I/O error".to_string()) };
    assert_eq!(runtime_msg(builtin_sqlite_tables(&t, id, &failing)), "sqlite_tables() error: disk I/O error");
    let count = |c: &Vec<String>, _sql: &str, name: &str| -> Result<i64, String> {
        Ok(c.iter().filter(|n| n.as_str() == name).count() as i64)
    };
    assert_eq!(builtin_sqlite_table_exists(&t, id, "songs", &count).unwrap(), true);
    assert_eq!(builtin_sqlite_table_exists(&t, id, "beats", &count).unwrap(), false);
    assert!(builtin_sqlite_close(&mut t, id));
    assert_eq!(runtime_msg(builtin_sqlite_tables(&t, id, &list)), "sqlite_tables() invalid handle: 1");
    assert_eq!(
        runtime_msg(builtin_sqlite_table_exists(&t, 42, "songs", &count)),
        "sqlite_table_exists() invalid handle: 42"
    );
    assert!(builtin_sqlite_close(&mut t, 42));
}

#[test]
fn table_exists_agrees_with_table_list() {
    let mut t: HandleTable<Vec<String>> = HandleTable::new();
    let id = t.store(vec!["notes".to_string(), "songs".to_string()]);
    let list = |c: &Vec<String>, _sql: &str| -> Result<Vec<String>, String> { Ok(c.clone()) };
    let count = |c: &Vec<String>, _sql: &str, name: &str| -> Result<i64, String> {
        Ok(c.iter().filter(|n| n.as_str() == name).count() as i64)
    };
    let names = builtin_sqlite_tables(&t, id, &list).unwrap();
    for name in ["notes", "songs", "other", ""] {
        let exists = builtin_sqlite_table_exists(&t, id, name, &count).unwrap();
        assert_eq!(exists, names.iter().any(|n| n == name));
    }
    builtin_sqlite_close(&mut t, id);
    assert!(builtin_sqlite_tables(&t, id, &list).is_err());
    assert!(builtin_sqlite_table_exists(&t, id, "notes", &count).is_err());
}
