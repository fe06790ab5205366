use manaudit::audit::{is_generated, is_mdoc};
use manaudit::record::Record;
use manaudit::registry::Database;
use manaudit::xref::find_xrefs;

#[test]
fn mdoc_is_told_by_its_os_line() {
    assert!(is_mdoc(".Dd May 1, 2020\n.Dt LS 1\n.Os\n.Sh NAME\n"));
    assert!(is_mdoc(".Dd May 1, 2020\n.Os illumos 1.0\n"));
    assert!(is_mdoc(".Os"));
    assert!(!is_mdoc(".Os x\n"));
    assert!(!is_mdoc("'\\\" te\n.TH LS 1\n"));
    assert!(!is_mdoc(" .Os\n"));
    assert!(!is_mdoc(""));
}

#[test]
fn references_are_held_against_the_registry() {
    let mut db = Database::new();
    db.insert(false, "1", "cat", "coreutils").unwrap();
    db.insert(true, "2", "open", "system").unwrap();
    let doc = "'\\\" te\n.TH LS 1\n\\fBcat\\fR(1), \\fBdd\\fR(1M), \\fB\\fBopen\\fR\\fR(2), \\fBcat\\fR(2)\n";
    let found = find_xrefs(doc).unwrap();
    assert_eq!(db.audit(&found.xrefs), vec![true, true, false, false]);
    assert_eq!(found.xrefs[0], ("2".to_string(), "open".to_string()));
    assert_eq!(found.xrefs[2], ("1M".to_string(), "dd".to_string()));
    assert!(db.audit(&vec![]).is_empty());
}

#[test]
fn generated_pages_are_those_of_3cpc_with_event_in_the_name() {
    let rec = |sect: &str, page: &str| Record {
        link: false,
        sect: sect.to_string(),
        page: page.to_string(),
        pkg: "pkg".to_string(),
        orig_sect: None,
    };
    assert!(is_generated(&rec("3CPC", "generic_events")));
    assert!(is_generated(&rec("3CPC", "event")));
    assert!(!is_generated(&rec("3CPC", "cpc_open")));
    assert!(!is_generated(&rec("3C", "generic_events")));
    assert!(!is_generated(&rec("3cpc", "generic_events")));
    assert!(!is_generated(&rec("3CPC", "Events")));
}
