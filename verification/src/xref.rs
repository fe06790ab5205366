//! Cross-references in the body of a manual page.
//!
//! A reference is a page name in bold followed by a section in parentheses.
//! The matching engine proposes candidates on one line; `sift` decides which
//! of them are references.

use crate::foreign::{captures_in, regex_captures, uppercase};
use crate::order::same_str;
use crate::text::{
    begins_with, chars_of, contains, holds, is_str, lines, lines_of, starts_with, string_of, views,
};
use vstd::prelude::*;

verus! {

/// A page name wrapped in doubled bold escapes, then a parenthesized section.
pub const DOUBLE_BOLD: &'static str =
    r"\\fB\\fB(?P<page>[a-zA-Z_0-9+.-]+)\\fR\\fR\((?P<sect>[0-9][^\])]*)\)";

/// A page name wrapped once in bold escapes, then a parenthesized section.
pub const SINGLE_BOLD: &'static str =
    r"\\fB(?P<page>[a-zA-Z_0-9+.-]+)\\fR\((?P<sect>[0-9][^\])]*)\)";

/// The escape that switches to italic.
pub const ITALIC: &'static str = r"\fI";

/// What becomes of one candidate.
#[derive(Clone, Copy, Debug, PartialEq, Eq)]
pub enum Verdict {
    /// A cross-reference.
    Accepted,
    /// Its section is not in upper case: dropped, and worth a diagnostic.
    NotUppercase,
    /// Its section holds the italic escape: dropped in silence.
    Italic,
    /// Not a match of a pattern with a page group and a section group.
    Shapeless,
}

/// A match with two groups besides the whole match, both of which took part.
pub open spec fn has_shape(c: Seq<Option<Seq<char>>>) -> bool {
    c.len() == 3 && c[1] is Some && c[2] is Some
}

/// The page name of a candidate.
pub open spec fn page_of(c: Seq<Option<Seq<char>>>) -> Seq<char> {
    c[1]->0
}

/// The section token of a candidate.
pub open spec fn sect_of(c: Seq<Option<Seq<char>>>) -> Seq<char> {
    c[2]->0
}

/// The verdict on a section token, given its upper-case form: the italic
/// escape is looked for first, the case of the section after it.
pub open spec fn weighed(sect: Seq<char>, upper: Seq<char>) -> Verdict {
    if contains(sect, ITALIC@) {
        Verdict::Italic
    } else if sect != upper {
        Verdict::NotUppercase
    } else {
        Verdict::Accepted
    }
}

/// The verdict on a candidate: on its shape first, then on its section
/// token.
pub open spec fn verdict(c: Seq<Option<Seq<char>>>) -> Verdict {
    if !has_shape(c) {
        Verdict::Shapeless
    } else {
        weighed(sect_of(c), uppercase(sect_of(c)))
    }
}

/// The cross-references among `cs`, each as section and page, in order.
pub open spec fn accepted(cs: Seq<Seq<Option<Seq<char>>>>) -> Seq<(Seq<char>, Seq<char>)> {
    cs.filter(|c: Seq<Option<Seq<char>>>| verdict(c) is Accepted).map_values(
        |c: Seq<Option<Seq<char>>>| (sect_of(c), page_of(c)),
    )
}

/// The sections of the candidates among `cs` that are dropped for their
/// case, in order.
pub open spec fn rejected(cs: Seq<Seq<Option<Seq<char>>>>) -> Seq<Seq<char>> {
    cs.filter(|c: Seq<Option<Seq<char>>>| verdict(c) is NotUppercase).map_values(
        |c: Seq<Option<Seq<char>>>| sect_of(c),
    )
}

/// What one line yields.
#[derive(Debug, PartialEq, Eq)]
pub struct LineXrefs {
    /// The cross-references, each as section and page.
    pub xrefs: Vec<(String, String)>,
    /// The sections that were dropped because they are not in upper case.
    pub rejected: Vec<String>,
}

/// Decides on a section token, given its upper-case form.
pub fn weigh(sect: &str, upper: &str) -> (v: Verdict)
    ensures
        v == weighed(sect@, upper@),
{
    let cs = chars_of(sect);
    if holds(cs.as_slice(), ITALIC) {
        Verdict::Italic
    } else if same_str(sect, upper) {
        Verdict::Accepted
    } else {
        Verdict::NotUppercase
    }
}

/// Decides on one candidate.
pub fn judge(c: &Vec<Option<String>>) -> (v: Verdict)
    ensures
        v == verdict(c.deep_view()),
{
    if c.len() != 3 {
        return Verdict::Shapeless;
    }
    assert(c.deep_view()[1] == c@[1].deep_view());
    assert(c.deep_view()[2] == c@[2].deep_view());
    match (&c[1], &c[2]) {
        (Some(_), Some(sect)) => {
            let upper = sect.as_str().to_uppercase();
            weigh(sect.as_str(), upper.as_str())
        },
        _ => Verdict::Shapeless,
    }
}

/// The view of `LineXrefs`.
pub struct LineXrefsView {
    pub xrefs: Seq<(Seq<char>, Seq<char>)>,
    pub rejected: Seq<Seq<char>>,
}

impl View for LineXrefs {
    type V = LineXrefsView;

    open spec fn view(&self) -> LineXrefsView {
        LineXrefsView { xrefs: self.xrefs.deep_view(), rejected: self.rejected.deep_view() }
    }
}

/// One more candidate adds at most one entry, to one of the two lists.
pub proof fn lemma_sift_push(cs: Seq<Seq<Option<Seq<char>>>>, c: Seq<Option<Seq<char>>>)
    ensures
        accepted(cs.push(c)) == if verdict(c) is Accepted {
            accepted(cs).push((sect_of(c), page_of(c)))
        } else {
            accepted(cs)
        },
        rejected(cs.push(c)) == if verdict(c) is NotUppercase {
            rejected(cs).push(sect_of(c))
        } else {
            rejected(cs)
        },
{
    let is_accepted = |c: Seq<Option<Seq<char>>>| verdict(c) is Accepted;
    let is_rejected = |c: Seq<Option<Seq<char>>>| verdict(c) is NotUppercase;
    Seq::lemma_filter_push(cs, c, is_accepted);
    Seq::lemma_filter_push(cs, c, is_rejected);
    assert(accepted(cs.push(c)) =~= if verdict(c) is Accepted {
        accepted(cs).push((sect_of(c), page_of(c)))
    } else {
        accepted(cs)
    });
    assert(rejected(cs.push(c)) =~= if verdict(c) is NotUppercase {
        rejected(cs).push(sect_of(c))
    } else {
        rejected(cs)
    });
}

/// Sorts the candidates of one line into cross-references, sections to
/// report and the rest.
pub fn sift(cs: &Vec<Vec<Option<String>>>) -> (out: LineXrefs)
    ensures
        out@.xrefs == accepted(cs.deep_view()),
        out@.rejected == rejected(cs.deep_view()),
{
    let mut out = LineXrefs { xrefs: Vec::new(), rejected: Vec::new() };
    let mut i: usize = 0;
    proof {
        assert(cs.deep_view().take(0) =~= Seq::empty());
        assert(out@.xrefs =~= accepted(Seq::empty()));
        assert(out@.rejected =~= rejected(Seq::empty()));
    }
    while i < cs.len()
        invariant
            i <= cs.len(),
            out@.xrefs == accepted(cs.deep_view().take(i as int)),
            out@.rejected == rejected(cs.deep_view().take(i as int)),
        decreases cs.len() - i,
    {
        let c = &cs[i];
        proof {
            let all = cs.deep_view();
            assert(all[i as int] == c.deep_view());
            assert(all.take(i + 1) =~= all.take(i as int).push(c.deep_view()));
            lemma_sift_push(all.take(i as int), c.deep_view());
            assert(c.deep_view().len() == c@.len());
            if c@.len() == 3 {
                assert(c.deep_view()[1] == c@[1].deep_view());
                assert(c.deep_view()[2] == c@[2].deep_view());
            }
        }
        match judge(c) {
            Verdict::Accepted => {
                match (&c[1], &c[2]) {
                    (Some(page), Some(sect)) => {
                        let ghost before = out.xrefs.deep_view();
                        out.xrefs.push((sect.clone(), page.clone()));
                        assert(out.xrefs.deep_view() =~= before.push((sect@, page@)));
                    },
                    _ => {},
                }
            },
            Verdict::NotUppercase => {
                match &c[2] {
                    Some(sect) => {
                        let ghost before = out.rejected.deep_view();
                        out.rejected.push(sect.clone());
                        assert(out.rejected.deep_view() =~= before.push(sect@));
                    },
                    None => {},
                }
            },
            _ => {},
        }
        i += 1;
    }
    assert(cs.deep_view().take(cs.len() as int) =~= cs.deep_view());
    out
}

/// The candidates on a line: the matches of the doubled shape, then those of
/// the single one. `None` where the matching engine refuses a pattern.
pub open spec fn candidates(l: Seq<char>) -> Option<Seq<Seq<Option<Seq<char>>>>> {
    match (regex_captures(DOUBLE_BOLD@, l), regex_captures(SINGLE_BOLD@, l)) {
        (Some(double), Some(single)) => Some(double + single),
        _ => None,
    }
}

/// Why a scan stopped.
#[derive(Debug, PartialEq, Eq)]
pub enum ScanError {
    /// A line that the state of the scan does not allow.
    UnexpectedLine { state: ScanState, line: String },
    /// The matching engine refused a pattern.
    PatternRefused,
}

/// The view of `ScanError`.
pub enum ScanErrorView {
    UnexpectedLine { state: ScanState, line: Seq<char> },
    PatternRefused,
}

impl View for ScanError {
    type V = ScanErrorView;

    open spec fn view(&self) -> ScanErrorView {
        match self {
            ScanError::UnexpectedLine { state, line } => ScanErrorView::UnexpectedLine {
                state: *state,
                line: line@,
            },
            ScanError::PatternRefused => ScanErrorView::PatternRefused,
        }
    }
}

/// The cross-references on one line of content, and the sections found
/// there that are not in upper case.
pub fn find_xrefs_line(l: &str) -> (r: Result<LineXrefs, ScanError>)
    ensures
        match candidates(l@) {
            Some(cs) => r matches Ok(out) && out@.xrefs == accepted(cs) && out@.rejected
                == rejected(cs),
            None => r matches Err(e) && e@ == ScanErrorView::PatternRefused,
        },
{
    let mut double = match captures_in(DOUBLE_BOLD, l) {
        Some(found) => found,
        None => { return Err(ScanError::PatternRefused); },
    };
    let mut single = match captures_in(SINGLE_BOLD, l) {
        Some(found) => found,
        None => { return Err(ScanError::PatternRefused); },
    };
    let ghost d = double.deep_view();
    let ghost s = single.deep_view();
    double.append(&mut single);
    assert(double.deep_view() =~= d + s);
    Ok(sift(&double))
}

/// Where the scan of a document stands.
#[derive(Clone, Copy, PartialEq, Eq, Debug, Structural)]
pub enum ScanState {
    /// Before the first line: a known leader line is expected.
    Preamble,
    /// In the comments that follow the leader, before the title.
    Copyright,
    /// In the body.
    Content,
}

/// A title line of one of the two pages that have no leader before it.
pub open spec fn is_title_exception(l: Seq<char>) -> bool {
    starts_with(l, ".TH WHOIS"@) || starts_with(l, ".TH HOSTS_ACCESS"@)
}

/// One of the known first lines of a page: a comment, a preprocessor hint,
/// an editor hint, or a comment that holds a copyright notice.
pub open spec fn is_leader(l: Seq<char>) -> bool {
    ||| l == r#"'\" te"#@
    ||| l == r#".\""#@
    ||| l == r#"'\" t"#@
    ||| l == r#"'\""#@
    ||| l == r#".\" -*- tab-width: 4 -*-"#@
    ||| l == r#".\" -*- nroff -*-"#@
    ||| (starts_with(l, r#".\""#@) && contains(l, "Copyright"@))
}

/// What has been gathered up to some line of a document.
pub struct Progress {
    pub state: ScanState,
    pub xrefs: Seq<(Seq<char>, Seq<char>)>,
    pub rejected: Seq<(Seq<char>, Seq<char>)>,
}

/// `sects`, each paired with the line `l`.
pub open spec fn on_line(sects: Seq<Seq<char>>, l: Seq<char>) -> Seq<(Seq<char>, Seq<char>)> {
    sects.map_values(|s: Seq<char>| (s, l))
}

/// The scan before the first line.
pub open spec fn start() -> Progress {
    Progress { state: ScanState::Preamble, xrefs: Seq::empty(), rejected: Seq::empty() }
}

/// One line moves the scan on, or stops it.
pub open spec fn step(p: Progress, l: Seq<char>) -> Result<Progress, ScanErrorView> {
    match p.state {
        ScanState::Preamble => {
            if is_title_exception(l) {
                Ok(Progress { state: ScanState::Content, ..p })
            } else if is_leader(l) {
                Ok(Progress { state: ScanState::Copyright, ..p })
            } else {
                Err(ScanErrorView::UnexpectedLine { state: p.state, line: l })
            }
        },
        ScanState::Copyright => {
            if starts_with(l, r#".\""#@) || l.len() == 0 {
                Ok(p)
            } else if starts_with(l, ".TH"@) {
                Ok(Progress { state: ScanState::Content, ..p })
            } else {
                Err(ScanErrorView::UnexpectedLine { state: p.state, line: l })
            }
        },
        ScanState::Content => {
            if starts_with(l, "."@) {
                Ok(p)
            } else {
                match candidates(l) {
                    Some(cs) => Ok(
                        Progress {
                            state: ScanState::Content,
                            xrefs: p.xrefs + accepted(cs),
                            rejected: p.rejected + on_line(rejected(cs), l),
                        },
                    ),
                    None => Err(ScanErrorView::PatternRefused),
                }
            }
        },
    }
}

/// The scan after the lines `ls`: the first line that stops it decides.
pub open spec fn scan(ls: Seq<Seq<char>>) -> Result<Progress, ScanErrorView>
    decreases ls.len(),
{
    if ls.len() == 0 {
        Ok(start())
    } else {
        match scan(ls.drop_last()) {
            Ok(p) => step(p, ls.last()),
            Err(e) => Err(e),
        }
    }
}

/// What a document yields.
#[derive(Debug, PartialEq, Eq)]
pub struct XrefScan {
    /// The cross-references, each as section and page, in the order of the
    /// document.
    pub xrefs: Vec<(String, String)>,
    /// The sections dropped because they are not in upper case, each with
    /// the line it stands on.
    pub rejected: Vec<(String, String)>,
}

/// Scans a document for cross-references.
pub fn find_xrefs(content: &str) -> (r: Result<XrefScan, ScanError>)
    ensures
        match scan(lines(content@)) {
            Ok(p) => r matches Ok(found) && found.xrefs.deep_view() == p.xrefs
                && found.rejected.deep_view() == p.rejected,
            Err(e) => r matches Err(x) && x@ == e,
        },
{
    let chars = chars_of(content);
    let ls = lines_of(chars.as_slice());
    let mut st = ScanState::Preamble;
    let mut out = XrefScan { xrefs: Vec::new(), rejected: Vec::new() };
    let mut i: usize = 0;
    proof {
        assert(views(ls@).take(0) =~= Seq::empty());
        assert(out.xrefs.deep_view() =~= Seq::empty());
        assert(out.rejected.deep_view() =~= Seq::empty());
    }
    while i < ls.len()
        invariant
            i <= ls.len(),
            views(ls@) == lines(content@),
            scan(views(ls@).take(i as int)) == Ok::<Progress, ScanErrorView>(
                Progress {
                    state: st,
                    xrefs: out.xrefs.deep_view(),
                    rejected: out.rejected.deep_view(),
                },
            ),
        decreases ls.len() - i,
    {
        let l = ls[i].as_slice();
        proof {
            let all = views(ls@);
            assert(all.take(i + 1).drop_last() =~= all.take(i as int));
            assert(all.take(i + 1).last() == l@);
            assert(all.take(ls.len() as int) =~= all);
        }
        let ghost before = Progress {
            state: st,
            xrefs: out.xrefs.deep_view(),
            rejected: out.rejected.deep_view(),
        };
        let ghost rest = views(ls@).take(i + 1);
        assert(scan(rest) == step(before, l@));
        match st {
            ScanState::Preamble => {
                if begins_with(l, ".TH WHOIS") || begins_with(l, ".TH HOSTS_ACCESS") {
                    st = ScanState::Content;
                } else if is_str(l, r#"'\" te"#) || is_str(l, r#".\""#) || is_str(l, r#"'\" t"#)
                    || is_str(l, r#"'\""#) || is_str(l, r#".\" -*- tab-width: 4 -*-"#) || is_str(
                    l,
                    r#".\" -*- nroff -*-"#,
                ) || (begins_with(l, r#".\""#) && holds(l, "Copyright")) {
                    st = ScanState::Copyright;
                } else {
                    proof {
                        lemma_scan_stops(views(ls@), i + 1);
                    }
                    return Err(ScanError::UnexpectedLine { state: st, line: string_of(l) });
                }
            },
            ScanState::Copyright => {
                if begins_with(l, r#".\""#) || l.len() == 0 {
                } else if begins_with(l, ".TH") {
                    st = ScanState::Content;
                } else {
                    proof {
                        lemma_scan_stops(views(ls@), i + 1);
                    }
                    return Err(ScanError::UnexpectedLine { state: st, line: string_of(l) });
                }
            },
            ScanState::Content => {
                if !begins_with(l, ".") {
                    let line = string_of(l);
                    match find_xrefs_line(line.as_str()) {
                        Ok(mut found) => {
                            let ghost xs = out.xrefs.deep_view();
                            let ghost fx = found.xrefs.deep_view();
                            out.xrefs.append(&mut found.xrefs);
                            assert(out.xrefs.deep_view() =~= xs + fx);
                            let mut k: usize = 0;
                            let ghost rs = out.rejected.deep_view();
                            let ghost fr = found.rejected.deep_view();
                            while k < found.rejected.len()
                                invariant
                                    k <= found.rejected.len(),
                                    line@ == l@,
                                    fr == found.rejected.deep_view(),
                                    out.xrefs.deep_view() == xs + fx,
                                    out.rejected.deep_view() == rs + on_line(fr, l@).take(
                                        k as int,
                                    ),
                                decreases found.rejected.len() - k,
                            {
                                let ghost cur = out.rejected.deep_view();
                                out.rejected.push((found.rejected[k].clone(), line.clone()));
                                proof {
                                    assert(fr[k as int] == found.rejected@[k as int]@);
                                    assert(out.rejected.deep_view() =~= cur.push(
                                        (fr[k as int], l@),
                                    ));
                                    assert(on_line(fr, l@).take(k + 1) =~= on_line(fr, l@).take(
                                        k as int,
                                    ).push((fr[k as int], l@)));
                                }
                                k += 1;
                            }
                            assert(on_line(fr, l@).take(fr.len() as int) =~= on_line(fr, l@));
                        },
                        Err(e) => {
                            proof {
                                lemma_scan_stops(views(ls@), i + 1);
                            }
                            return Err(e);
                        },
                    }
                }
            },
        }
        i += 1;
    }
    assert(views(ls@).take(ls.len() as int) =~= views(ls@));
    Ok(out)
}

/// Once a line has stopped the scan, the lines after it change nothing.
pub proof fn lemma_scan_stops(ls: Seq<Seq<char>>, n: int)
    requires
        0 <= n <= ls.len(),
        scan(ls.take(n)) is Err,
    ensures
        scan(ls) == scan(ls.take(n)),
    decreases ls.len(),
{
    if n < ls.len() {
        assert(ls.drop_last().take(n) =~= ls.take(n));
        lemma_scan_stops(ls.drop_last(), n);
    } else {
        assert(ls.take(n) =~= ls);
    }
}

} // verus!
