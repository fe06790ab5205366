use manaudit::contents::{Action, Package, PkgContentsResult};
use manaudit::ingest::{ask, path_to_man, IngestError, IngestFault, ManPathError};
use manaudit::record::Record;
use manaudit::registry::Database;

fn ok(sect: &str, page: &str) -> Result<(String, String), ManPathError> {
    Ok((sect.to_string(), page.to_string()))
}

fn file(path: &str) -> Action {
    Action::File { path: path.to_string() }
}

fn link(path: &str, target: &str) -> Action {
    Action::Link { path: path.to_string(), target: target.to_string() }
}

fn listing(name: &str, contents: Vec<Action>) -> PkgContentsResult {
    PkgContentsResult {
        repo: "repo".to_string(),
        pkg: Package { name: name.to_string(), version: None },
        contents,
    }
}

fn rec(link: bool, sect: &str, page: &str, pkg: &str) -> Record {
    Record {
        link,
        sect: sect.to_string(),
        page: page.to_string(),
        pkg: pkg.to_string(),
        orig_sect: None,
    }
}

#[test]
fn path_gives_section_in_upper_case_and_page() {
    assert_eq!(path_to_man("usr/share/man/man1/ls.1"), ok("1", "ls"));
    assert_eq!(path_to_man("usr/share/man/man1m/zfs.1m"), ok("1M", "zfs"));
    assert_eq!(path_to_man("usr/share/man/man3c/printf.3c"), ok("3C", "printf"));
    assert_eq!(path_to_man("usr/share/man/man3lib/libc.so.1.3lib"), ok("3LIB", "libc.so.1"));
}

#[test]
fn repeated_man_and_repeated_suffix_are_all_taken_off() {
    assert_eq!(path_to_man("usr/share/man/manman1/ls.1"), ok("1", "ls"));
    assert_eq!(path_to_man("usr/share/man/man1/ls.1.1"), ok("1", "ls"));
    assert_eq!(path_to_man("usr/share/man/man/ls..."), ok("", "ls"));
}

#[test]
fn root_written_twice_is_no_page() {
    assert_eq!(
        path_to_man("usr/share/man/usr/share/man/man1/ls.1"),
        Err(ManPathError::Shape)
    );
    assert_eq!(path_to_man("usr/share/man/usr/share/man/"), Err(ManPathError::Shape));
    assert_eq!(
        ask(&file("usr/share/man/usr/share/man/man1/ls.1")),
        Err(IngestFault::Path(ManPathError::Shape))
    );
}

#[test]
fn path_outside_the_manual_is_refused() {
    assert_eq!(path_to_man("usr/bin/ls"), Err(ManPathError::NotManual));
    assert_eq!(path_to_man("usr/share/man"), Err(ManPathError::NotManual));
    assert_eq!(path_to_man("/usr/share/man/man1/ls.1"), Err(ManPathError::NotManual));
    assert_eq!(path_to_man(""), Err(ManPathError::NotManual));
}

#[test]
fn path_of_another_shape_is_refused() {
    assert_eq!(path_to_man("usr/share/man/man1"), Err(ManPathError::Shape));
    assert_eq!(path_to_man("usr/share/man/"), Err(ManPathError::Shape));
    assert_eq!(path_to_man("usr/share/man/man1/sub/ls.1"), Err(ManPathError::Shape));
    assert_eq!(path_to_man("usr/share/man/cat1/ls.1"), Err(ManPathError::Shape));
    assert_eq!(path_to_man("usr/share/man/man1/"), Err(ManPathError::Suffix));
}

#[test]
fn page_of_another_section_is_refused() {
    assert_eq!(path_to_man("usr/share/man/man1/ls.2"), Err(ManPathError::Suffix));
    assert_eq!(path_to_man("usr/share/man/man1m/zfs.1"), Err(ManPathError::Suffix));
    assert_eq!(path_to_man("usr/share/man/man1/ls1"), Err(ManPathError::Suffix));
    assert_eq!(path_to_man("usr/share/man/man1m/zfs.1M"), Err(ManPathError::Suffix));
}

#[test]
fn file_becomes_a_page_and_link_an_alias() {
    assert_eq!(
        ask(&file("usr/share/man/man1/ls.1")),
        Ok(Some((false, "1".to_string(), "ls".to_string())))
    );
    assert_eq!(
        ask(&link("usr/share/man/man1/dir.1", "ls.1")),
        Ok(Some((true, "1".to_string(), "dir".to_string())))
    );
    assert_eq!(ask(&Action::Other), Ok(None));
    assert_eq!(ask(&file("usr/bin/ls")), Ok(None));
    assert_eq!(ask(&link("usr/bin/dir", "ls")), Ok(None));
}

#[test]
fn old_manual_tree_is_a_fault() {
    assert_eq!(ask(&file("usr/man/man1/ls.1")), Err(IngestFault::OldTree));
    assert_eq!(ask(&file("usr/man")), Err(IngestFault::OldTree));
    assert_eq!(ask(&link("usr/man/man1/ls.1", "x")), Err(IngestFault::OldTree));
    assert_eq!(ask(&link("usr/man", "share/man")), Ok(None));
}

#[test]
fn link_targets_stay_in_the_directory() {
    let at = "usr/share/man/man1/dir.1";
    let good = Ok(Some((true, "1".to_string(), "dir".to_string())));
    assert_eq!(ask(&link(at, "../man1/ls.1")), good);
    assert_eq!(ask(&link(at, "../../../has/man/man1has/ls.1has")), good);
    assert_eq!(ask(&link(at, "./ls.1")), good);
    assert_eq!(ask(&link(at, "../man1/./ls.1")), good);
    assert_eq!(ask(&link(at, "../man2/ls.1")), Err(IngestFault::Target));
    assert_eq!(ask(&link(at, "/usr/share/man/man1/ls.1")), Err(IngestFault::Target));
    assert_eq!(ask(&link(at, "./../man1/ls.1")), Err(IngestFault::Target));
}

#[test]
fn faulty_path_of_a_page_is_a_fault() {
    assert_eq!(
        ask(&file("usr/share/man/man1/ls.2")),
        Err(IngestFault::Path(ManPathError::Suffix))
    );
    assert_eq!(
        ask(&link("usr/share/man/index", "ls.1")),
        Err(IngestFault::Path(ManPathError::Shape))
    );
}

#[test]
fn ingest_takes_pages_and_aliases() {
    let mut db = Database::new();
    let batch = vec![listing(
        "coreutils",
        vec![
            file("usr/bin/ls"),
            file("usr/share/man/man1/ls.1"),
            Action::Other,
            link("usr/share/man/man1/dir.1", "ls.1"),
            file("usr/share/man/man1m/zfs.1m"),
        ],
    )];
    assert_eq!(db.ingest(&batch), Ok(()));
    assert_eq!(
        db.records,
        vec![
            rec(true, "1", "dir", "coreutils"),
            rec(false, "1", "ls", "coreutils"),
            rec(false, "1M", "zfs", "coreutils"),
        ]
    );
}

#[test]
fn ingest_stops_at_the_first_fault_and_keeps_what_came_before() {
    let mut db = Database::new();
    let batch = vec![listing(
        "a",
        vec![
            file("usr/share/man/man1/ls.1"),
            file("usr/share/man/man1/ls.2"),
            file("usr/share/man/man1/cat.1"),
        ],
    )];
    assert_eq!(
        db.ingest(&batch),
        Err(IngestError { action: 1, fault: IngestFault::Path(ManPathError::Suffix) })
    );
    assert_eq!(db.records, vec![rec(false, "1", "ls", "a")]);
}

#[test]
fn ingest_reports_a_page_that_is_held_already() {
    let mut db = Database::new();
    assert_eq!(db.ingest(&vec![listing("a", vec![file("usr/share/man/man1/ls.1")])]), Ok(()));
    let r = db.ingest(&vec![listing("b", vec![Action::Other, file("usr/share/man/man1/ls.1")])]);
    assert_eq!(r, Err(IngestError { action: 1, fault: IngestFault::Conflict }));
    assert_eq!(db.records, vec![rec(false, "1", "ls", "a")]);
}

#[test]
fn ingest_wants_one_listing_in_a_batch() {
    let mut db = Database::new();
    let size = Err(IngestError { action: 0, fault: IngestFault::BatchSize });
    assert_eq!(db.ingest(&vec![]), size);
    let two = vec![
        listing("a", vec![file("usr/share/man/man1/ls.1")]),
        listing("b", vec![file("usr/share/man/man1/cat.1")]),
    ];
    assert_eq!(db.ingest(&two), size);
    assert!(db.records.is_empty());
}
