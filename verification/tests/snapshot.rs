use manaudit::record::Record;
use manaudit::registry::Database;
use manaudit::snapshot::{Fault, LoadError};

fn rec(link: bool, sect: &str, page: &str, pkg: &str) -> Record {
    Record {
        link,
        sect: sect.to_string(),
        page: page.to_string(),
        pkg: pkg.to_string(),
        orig_sect: None,
    }
}

#[test]
fn load_keeps_the_order_of_the_lines() {
    let db = Database::load("f\t3C\tprintf\tlibc\nl\t1\tdir\tcoreutils\nf\t1\tls\tcoreutils\n").unwrap();
    assert_eq!(
        db.records,
        vec![
            rec(false, "3C", "printf", "libc"),
            rec(true, "1", "dir", "coreutils"),
            rec(false, "1", "ls", "coreutils"),
        ]
    );
}

#[test]
fn load_accepts_a_last_line_without_line_feed() {
    let db = Database::load("f\t1\tls\tcoreutils").unwrap();
    assert_eq!(db.records, vec![rec(false, "1", "ls", "coreutils")]);
}

#[test]
fn load_of_nothing_is_an_empty_registry() {
    assert!(Database::load("").unwrap().records.is_empty());
}

#[test]
fn load_takes_carriage_return_with_the_line_feed() {
    let db = Database::load("f\t1\tls\tcoreutils\r\nl\t1\tdir\tcoreutils\r\n").unwrap();
    assert_eq!(db.records[0].pkg, "coreutils");
    assert_eq!(db.records[1].pkg, "coreutils");
}

#[test]
fn load_accepts_empty_fields_and_the_same_key_twice() {
    let db = Database::load("f\t\t\t\nf\t1\tls\ta\nf\t1\tls\tb\n").unwrap();
    assert_eq!(db.records.len(), 3);
    assert_eq!(db.records[0], rec(false, "", "", ""));
}

#[test]
fn load_refuses_a_line_with_three_fields() {
    let r = Database::load("f\t1\tls\tcoreutils\nf\t1\tls\n");
    assert_eq!(r, Err(LoadError { line: 1, fault: Fault::Shape }));
}

#[test]
fn load_refuses_a_line_with_five_fields() {
    let r = Database::load("f\t1\tls\tcoreutils\textra\n");
    assert_eq!(r, Err(LoadError { line: 0, fault: Fault::Shape }));
}

#[test]
fn load_refuses_an_empty_line() {
    let r = Database::load("f\t1\tls\tcoreutils\n\nf\t1\tcat\tcoreutils\n");
    assert_eq!(r, Err(LoadError { line: 1, fault: Fault::Shape }));
}

#[test]
fn load_refuses_an_unknown_kind() {
    let r = Database::load("f\t1\tls\tcoreutils\nx\t1\tcat\tcoreutils\n");
    assert_eq!(r, Err(LoadError { line: 1, fault: Fault::Kind }));
    let r = Database::load("F\t1\tls\tcoreutils\n");
    assert_eq!(r, Err(LoadError { line: 0, fault: Fault::Kind }));
    let r = Database::load("ff\t1\tls\tcoreutils\n");
    assert_eq!(r, Err(LoadError { line: 0, fault: Fault::Kind }));
}

#[test]
fn the_first_fault_is_reported() {
    let r = Database::load("x\t1\tls\tcoreutils\nf\t1\n");
    assert_eq!(r, Err(LoadError { line: 0, fault: Fault::Kind }));
}

#[test]
fn persist_writes_one_line_for_each_record() {
    let mut db = Database::new();
    db.insert(false, "3C", "printf", "libc").unwrap();
    db.insert(true, "1", "dir", "coreutils").unwrap();
    assert_eq!(db.persist(), "l\t1\tdir\tcoreutils\nf\t3C\tprintf\tlibc\n");
    assert_eq!(Database::new().persist(), "");
}

#[test]
fn persist_of_load_gives_the_text_back_in_any_order() {
    for text in [
        "f\t3C\tprintf\tlibc\nl\t1\tdir\tcoreutils\nf\t1\tls\tcoreutils\n",
        "f\t1\tls\tcoreutils\nl\t1\tdir\tcoreutils\nf\t3C\tprintf\tlibc\n",
        "l\t1\tdir\tcoreutils\n",
        "",
    ] {
        let db = Database::load(text).unwrap();
        assert_eq!(db.persist(), text);
        assert_eq!(Database::load(&db.persist()).unwrap(), db);
    }
}

#[test]
fn load_of_persist_gives_the_records_back() {
    let mut db = Database::new();
    db.insert(false, "7D", "sd", "driver/sd").unwrap();
    db.insert(true, "1M", "zfs", "system/zfs").unwrap();
    db.insert(false, "1", "a b", "").unwrap();
    assert_eq!(Database::load(&db.persist()).unwrap(), db);
}

#[test]
fn persist_leaves_the_provenance_out() {
    let mut db = Database::new();
    db.insert(false, "1M", "zfs", "system/zfs").unwrap();
    assert_eq!(db.transform().persist(), "f\t8\tzfs\tsystem/zfs\n");
}

#[test]
fn owner_that_ends_in_carriage_return_does_not_come_back() {
    let db = Database::load("f\t1\tls\tpkg\r\r\n").unwrap();
    assert_eq!(db.records[0].pkg, "pkg\r");
    let again = Database::load(&db.persist()).unwrap();
    assert_eq!(again.records[0].pkg, "pkg");
}
