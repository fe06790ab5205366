use manaudit::record::Record;
use manaudit::registry::Database;
use manaudit::relocate::{relocate, relocate_section};

fn rec(sect: &str, page: &str, pkg: &str) -> Record {
    Record {
        link: false,
        sect: sect.to_string(),
        page: page.to_string(),
        pkg: pkg.to_string(),
        orig_sect: None,
    }
}

fn moved(sect: &str, from: &str, page: &str, pkg: &str) -> Record {
    Record { orig_sect: Some(from.to_string()), ..rec(sect, page, pkg) }
}

#[test]
fn sections_move_as_the_rule_says() {
    assert_eq!(relocate_section("1M"), Some("8".to_string()));
    assert_eq!(relocate_section("4"), Some("5".to_string()));
    assert_eq!(relocate_section("4FS"), Some("5FS".to_string()));
    assert_eq!(relocate_section("5"), Some("7".to_string()));
    assert_eq!(relocate_section("5oss"), Some("7oss".to_string()));
    assert_eq!(relocate_section("7D"), Some("4D".to_string()));
    assert_eq!(relocate_section("7"), Some("4".to_string()));
}

#[test]
fn other_sections_stay() {
    for sect in ["1", "1B", "1m", "2", "3C", "6", "8", "9E", "", "M4", "x7", "1M4"] {
        assert_eq!(relocate_section(sect), None);
        let r = rec(sect, "page", "pkg");
        assert_eq!(relocate(&r), r);
    }
}

#[test]
fn three_relocations_give_the_section_back() {
    for sect in ["4", "5", "7", "4FS", "5X", "7D", "7IPP", "44", "57"] {
        let once = relocate_section(sect).unwrap();
        let twice = relocate_section(&once).unwrap();
        let thrice = relocate_section(&twice).unwrap();
        assert_ne!(once, sect);
        assert_ne!(twice, sect);
        assert_eq!(thrice, sect);
    }
}

#[test]
fn relocated_record_carries_its_provenance() {
    let r = Record { link: true, ..rec("1M", "zfs", "pkg") };
    assert_eq!(relocate(&r), Record { link: true, ..moved("8", "1M", "zfs", "pkg") });
}

#[test]
fn transform_relocates_and_sorts() {
    let db = Database {
        records: vec![
            rec("1", "ls", "a"),
            rec("1M", "zfs", "b"),
            rec("4", "ar", "c"),
            rec("5", "attr", "d"),
            rec("7D", "sd", "e"),
            rec("9E", "open", "f"),
        ],
    };
    let out = db.transform();
    assert_eq!(
        out.records,
        vec![
            rec("1", "ls", "a"),
            moved("4D", "7D", "sd", "e"),
            moved("5", "4", "ar", "c"),
            moved("7", "5", "attr", "d"),
            moved("8", "1M", "zfs", "b"),
            rec("9E", "open", "f"),
        ]
    );
}

#[test]
fn page_in_two_family_sections_is_obscured() {
    let mut db = Database::new();
    db.insert(false, "4FS", "foo", "pkgA").unwrap();
    db.insert(false, "5FS", "foo", "pkgB").unwrap();
    let derived = db.transform();
    assert_eq!(derived.lookup("5FS", "foo"), Some(moved("5FS", "4FS", "foo", "pkgA")));
    assert_eq!(derived.lookup("7FS", "foo"), Some(moved("7FS", "5FS", "foo", "pkgB")));
    let lost = db.obscured_by(&derived);
    assert_eq!(lost, vec![rec("5FS", "foo", "pkgB")]);
    assert_eq!(db.simulate(), vec![rec("5FS", "foo", "pkgB")]);
}

#[test]
fn page_in_one_family_section_is_not_obscured() {
    let mut db = Database::new();
    db.insert(false, "4FS", "foo", "pkgA").unwrap();
    db.insert(false, "5FS", "bar", "pkgB").unwrap();
    db.insert(false, "1", "ls", "pkgC").unwrap();
    assert!(db.simulate().is_empty());
}

#[test]
fn page_of_section_8_is_obscured_by_one_from_1m() {
    let mut db = Database::new();
    db.insert(false, "1M", "mount", "pkgA").unwrap();
    db.insert(false, "8", "mount", "pkgB").unwrap();
    assert_eq!(db.simulate(), vec![rec("8", "mount", "pkgB")]);
}

#[test]
fn full_cycle_obscures_every_page_of_it() {
    let mut db = Database::new();
    db.insert(false, "4", "x", "a").unwrap();
    db.insert(false, "5", "x", "b").unwrap();
    db.insert(false, "7", "x", "c").unwrap();
    assert_eq!(db.simulate(), vec![rec("4", "x", "a"), rec("5", "x", "b"), rec("7", "x", "c")]);
}
