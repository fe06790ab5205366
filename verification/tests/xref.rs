use manaudit::xref::{
    find_xrefs, find_xrefs_line, judge, sift, weigh, ScanError, ScanState, Verdict,
};

fn pair(a: &str, b: &str) -> (String, String) {
    (a.to_string(), b.to_string())
}

fn candidate(page: &str, sect: &str) -> Vec<Option<String>> {
    vec![Some(format!("{}({})", page, sect)), Some(page.to_string()), Some(sect.to_string())]
}

#[test]
fn doubled_bold_reference_is_found() {
    let found = find_xrefs_line("see \\fB\\fBopen\\fR\\fR(2) for more").unwrap();
    assert_eq!(found.xrefs, vec![pair("2", "open")]);
    assert!(found.rejected.is_empty());
}

#[test]
fn lower_case_section_is_reported_and_dropped() {
    let found = find_xrefs_line("see \\fB\\fBopen\\fR\\fR(2x) for more").unwrap();
    assert!(found.xrefs.is_empty());
    assert_eq!(found.rejected, vec!["2x".to_string()]);
}

#[test]
fn mixed_case_section_is_reported_and_dropped() {
    let found = find_xrefs_line("\\fBioctl\\fR(3Socket)").unwrap();
    assert!(found.xrefs.is_empty());
    assert_eq!(found.rejected, vec!["3Socket".to_string()]);
}

#[test]
fn single_bold_reference_is_found() {
    let found = find_xrefs_line("\\fBls\\fR(1), \\fBzfs\\fR(1M) and \\fBlibc.so.1\\fR(3LIB)").unwrap();
    assert_eq!(found.xrefs, vec![pair("1", "ls"), pair("1M", "zfs"), pair("3LIB", "libc.so.1")]);
}

#[test]
fn doubled_shape_comes_before_single_shape() {
    let found = find_xrefs_line("\\fBcat\\fR(1) then \\fB\\fBdd\\fR\\fR(1M)").unwrap();
    assert_eq!(found.xrefs, vec![pair("1M", "dd"), pair("1", "cat")]);
}

#[test]
fn italic_in_section_is_dropped_in_silence() {
    let found = find_xrefs_line("\\fBprintf\\fR(3C \\fIfmt\\fR)").unwrap();
    assert!(found.xrefs.is_empty());
    assert!(found.rejected.is_empty());
}

#[test]
fn section_must_begin_with_a_digit() {
    let found = find_xrefs_line("\\fBmain\\fR(void)").unwrap();
    assert!(found.xrefs.is_empty());
    assert!(found.rejected.is_empty());
}

#[test]
fn section_ends_at_the_first_closing_bracket() {
    let found = find_xrefs_line("\\fBa\\fR(1]X)").unwrap();
    assert!(found.xrefs.is_empty());
    let found = find_xrefs_line("\\fBa\\fR(1[X)").unwrap();
    assert_eq!(found.xrefs, vec![pair("1[X", "a")]);
}

#[test]
fn plain_line_has_no_reference() {
    let found = find_xrefs_line("nothing to see here (1)").unwrap();
    assert!(found.xrefs.is_empty());
    assert!(found.rejected.is_empty());
}

#[test]
fn judge_looks_for_italic_before_case() {
    assert_eq!(judge(&candidate("a", "1")), Verdict::Accepted);
    assert_eq!(judge(&candidate("a", "1m")), Verdict::NotUppercase);
    assert_eq!(judge(&candidate("a", "1\\fIm")), Verdict::Italic);
    assert_eq!(judge(&vec![Some("x".to_string())]), Verdict::Shapeless);
    assert_eq!(
        judge(&vec![Some("x".to_string()), None, Some("1".to_string())]),
        Verdict::Shapeless
    );
}

#[test]
fn weigh_holds_the_section_against_its_upper_case() {
    assert_eq!(weigh("3C", "3C"), Verdict::Accepted);
    assert_eq!(weigh("3c", "3C"), Verdict::NotUppercase);
    assert_eq!(weigh("3C", "3c"), Verdict::NotUppercase);
    assert_eq!(weigh("", ""), Verdict::Accepted);
    assert_eq!(weigh("3\\fIC", "3\\FIC"), Verdict::Italic);
    assert_eq!(weigh("\\fI", "\\fI"), Verdict::Italic);
    assert_eq!(weigh("3\\fi", "3\\FI"), Verdict::NotUppercase);
}

#[test]
fn sift_keeps_order_and_parts_the_lists() {
    let cs = vec![
        candidate("b", "2"),
        candidate("c", "3c"),
        candidate("a", "1"),
        candidate("d", "4\\fIx"),
        vec![],
    ];
    let out = sift(&cs);
    assert_eq!(out.xrefs, vec![pair("2", "b"), pair("1", "a")]);
    assert_eq!(out.rejected, vec!["3c".to_string()]);
}

#[test]
fn document_with_leader_comments_and_title() {
    let doc = "'\\\" te\n.\\\" Copyright 1989 AT&T\n\n.TH LS 1\n.SH NAME\nsee \\fBcat\\fR(1)\n.SH SEE ALSO\n\\fBdd\\fR(1M), \\fBx\\fR(9e)\n";
    let found = find_xrefs(doc).unwrap();
    assert_eq!(found.xrefs, vec![pair("1", "cat"), pair("1M", "dd")]);
    assert_eq!(found.rejected, vec![pair("9e", "\\fBdd\\fR(1M), \\fBx\\fR(9e)")]);
}

#[test]
fn every_known_leader_opens_a_document() {
    for leader in [
        "'\\\" te",
        ".\\\"",
        "'\\\" t",
        "'\\\"",
        ".\\\" -*- tab-width: 4 -*-",
        ".\\\" -*- nroff -*-",
        ".\\\" Copyright (c) 2001",
    ] {
        let doc = format!("{}\n.TH X 1\n\\fBa\\fR(1)\n", leader);
        let found = find_xrefs(&doc).unwrap();
        assert_eq!(found.xrefs, vec![pair("1", "a")]);
    }
}

#[test]
fn title_exceptions_go_straight_to_content() {
    let found = find_xrefs(".TH WHOIS 1\n\\fBa\\fR(1)\n").unwrap();
    assert_eq!(found.xrefs, vec![pair("1", "a")]);
    let found = find_xrefs(".TH HOSTS_ACCESS 4\n\\fBb\\fR(4)\n").unwrap();
    assert_eq!(found.xrefs, vec![pair("4", "b")]);
}

#[test]
fn unknown_first_line_stops_the_scan() {
    let r = find_xrefs(".TH LS 1\n\\fBa\\fR(1)\n");
    assert_eq!(
        r,
        Err(ScanError::UnexpectedLine { state: ScanState::Preamble, line: ".TH LS 1".to_string() })
    );
}

#[test]
fn comment_without_copyright_is_no_leader() {
    let r = find_xrefs(".\\\" some remark\n.TH LS 1\n");
    assert_eq!(
        r,
        Err(ScanError::UnexpectedLine {
            state: ScanState::Preamble,
            line: ".\\\" some remark".to_string()
        })
    );
}

#[test]
fn text_before_the_title_stops_the_scan() {
    let r = find_xrefs("'\\\" te\nhello\n.TH LS 1\n");
    assert_eq!(
        r,
        Err(ScanError::UnexpectedLine { state: ScanState::Copyright, line: "hello".to_string() })
    );
}

#[test]
fn directive_lines_are_not_scanned() {
    let found = find_xrefs("'\\\"\n.TH X 1\n.BR \\fBa\\fR(1)\n").unwrap();
    assert!(found.xrefs.is_empty());
}

#[test]
fn empty_document_has_no_reference() {
    let found = find_xrefs("").unwrap();
    assert!(found.xrefs.is_empty());
    assert!(found.rejected.is_empty());
}

#[test]
fn lines_may_end_in_carriage_return_and_line_feed() {
    let found = find_xrefs("'\\\" te\r\n.TH X 1\r\n\\fBa\\fR(1)\r\n").unwrap();
    assert_eq!(found.xrefs, vec![pair("1", "a")]);
}

#[test]
fn duplicates_are_kept() {
    let found = find_xrefs("'\\\"\n.TH X 1\n\\fBa\\fR(1) \\fBa\\fR(1)\n\\fBa\\fR(1)\n").unwrap();
    assert_eq!(found.xrefs, vec![pair("1", "a"), pair("1", "a"), pair("1", "a")]);
}
