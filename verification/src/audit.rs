//! Cross-references held against the registry.

use crate::record::{Record, RecordView};
use crate::registry::{first_with_key, Database};
use crate::text::{
    begins_with, chars_of, contains, holds, is_str, lines, lines_of, starts_with, views,
};
use vstd::prelude::*;

verus! {

/// The registry holds the page that `x` names, a section and a page.
pub open spec fn resolves(db: Seq<RecordView>, x: (Seq<char>, Seq<char>)) -> bool {
    first_with_key(db, x.0, x.1) is Some
}

/// A line that only a page in the `mdoc` language has.
pub open spec fn mdoc_line(l: Seq<char>) -> bool {
    l == ".Os"@ || starts_with(l, ".Os illumos"@)
}

/// `ls` holds a line of `mdoc`.
pub open spec fn has_mdoc_line(ls: Seq<Seq<char>>) -> bool {
    exists|i: int| 0 <= i < ls.len() && mdoc_line(#[trigger] ls[i])
}

/// A page of section `3CPC` with `event` in its name: such pages are made
/// when the system is built, and may have no source.
pub open spec fn generated(r: RecordView) -> bool {
    contains(r.page, "event"@) && r.sect == "3CPC"@
}

/// Whether a page is one of those that may have no source. A caller that
/// finds no source for such a page passes it over.
pub fn is_generated(r: &Record) -> (b: bool)
    ensures
        b == generated(r@),
{
    let page = chars_of(r.page.as_str());
    let sect = chars_of(r.sect.as_str());
    holds(page.as_slice(), "event") && is_str(sect.as_slice(), "3CPC")
}

/// Whether a page is written in `mdoc`, in which cross-references are not
/// marked up with fonts and this library looks for none.
pub fn is_mdoc(content: &str) -> (b: bool)
    ensures
        b == has_mdoc_line(lines(content@)),
{
    let chars = chars_of(content);
    let ls = lines_of(chars.as_slice());
    let mut i: usize = 0;
    while i < ls.len()
        invariant
            i <= ls.len(),
            views(ls@) == lines(content@),
            forall|j: int| 0 <= j < i ==> !mdoc_line(#[trigger] views(ls@)[j]),
        decreases ls.len() - i,
    {
        let l = ls[i].as_slice();
        assert(views(ls@)[i as int] == l@);
        if is_str(l, ".Os") || begins_with(l, ".Os illumos") {
            return true;
        }
        i += 1;
    }
    false
}

impl Database {
    /// For each cross-reference, a section and a page, whether the
    /// registry holds the page.
    pub fn audit(&self, xrefs: &Vec<(String, String)>) -> (found: Vec<bool>)
        ensures
            found@ == xrefs.deep_view().map_values(
                |x: (Seq<char>, Seq<char>)| resolves(self@, x),
            ),
    {
        let ghost f = |x: (Seq<char>, Seq<char>)| resolves(self@, x);
        let mut found: Vec<bool> = Vec::new();
        let mut i: usize = 0;
        while i < xrefs.len()
            invariant
                i <= xrefs.len(),
                f == |x: (Seq<char>, Seq<char>)| resolves(self@, x),
                found@ == xrefs.deep_view().take(i as int).map_values(f),
            decreases xrefs.len() - i,
        {
            let x = &xrefs[i];
            let held = self.lookup(x.0.as_str(), x.1.as_str()).is_some();
            proof {
                let all = xrefs.deep_view();
                assert(all[i as int] == (x.0@, x.1@));
                assert(all.take(i + 1) =~= all.take(i as int).push(all[i as int]));
                assert(all.take(i + 1).map_values(f) =~= all.take(i as int).map_values(f).push(
                    held,
                ));
            }
            found.push(held);
            i += 1;
        }
        assert(xrefs.deep_view().take(xrefs.len() as int) =~= xrefs.deep_view());
        found
    }
}

} // verus!
