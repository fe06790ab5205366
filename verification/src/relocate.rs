//! The planned renumbering of sections, tried out on a registry.
//!
//! Section `1M` becomes `8`. The sections that begin with `4`, `5` and `7`
//! trade their first character in a cycle: `4` becomes `5`, `5` becomes `7`
//! and `7` becomes `4`. Every other section stays.

use crate::record::{
    record_views, sort_records, sorted, sorted_of, with_key, Record, RecordView,
};
use crate::registry::{first_with_key, Database};
use crate::text::{chars_of, is_str, string_of};
use vstd::prelude::*;

verus! {

/// The character that takes the place of `c` at the head of a section, for
/// the three characters of the cycle.
pub open spec fn rotated(c: char) -> Option<char> {
    if c == '4' {
        Some('5')
    } else if c == '5' {
        Some('7')
    } else if c == '7' {
        Some('4')
    } else {
        None
    }
}

/// The section that `sect` moves to, for a section that moves.
pub open spec fn relocated_section(sect: Seq<char>) -> Option<Seq<char>> {
    if sect == "1M"@ {
        Some("8"@)
    } else if sect.len() > 0 && rotated(sect[0]) is Some {
        Some(sect.update(0, rotated(sect[0])->0))
    } else {
        None
    }
}

/// The record that `r` becomes: in its new section and with the old one as
/// its provenance where the section moves, else `r` itself.
pub open spec fn relocated(r: RecordView) -> RecordView {
    match relocated_section(r.sect) {
        Some(sect) => RecordView { sect, orig_sect: Some(r.sect), ..r },
        None => r,
    }
}

/// The records of `s`, each relocated, in the order of `s`.
pub open spec fn relocated_all(s: Seq<RecordView>) -> Seq<RecordView> {
    s.map_values(|r: RecordView| relocated(r))
}

/// The first record of `derived` under the key of `r` carries a
/// provenance: the place of `r` is taken by a page that moved there.
pub open spec fn obscures(derived: Seq<RecordView>, r: RecordView) -> bool {
    match first_with_key(derived, r.sect, r.page) {
        Some(c) => c.orig_sect is Some,
        None => false,
    }
}

/// A record whose section is not `1M` and does not begin with `4`, `5` or
/// `7` is left as it is: its section stays, and it gains no provenance.
pub proof fn lemma_other_sections_stay(r: RecordView)
    requires
        r.sect != "1M"@,
        r.sect.len() == 0 || (r.sect[0] != '4' && r.sect[0] != '5' && r.sect[0] != '7'),
    ensures
        relocated(r) == r,
{
}

/// A section that begins with `4`, `5` or `7` is back where it was after
/// three relocations.
pub proof fn lemma_three_relocations(sect: Seq<char>)
    requires
        sect.len() > 0,
        sect[0] == '4' || sect[0] == '5' || sect[0] == '7',
    ensures
        relocated_section(sect) matches Some(once) && relocated_section(once) matches Some(twice)
            && relocated_section(twice) == Some(sect),
{
    reveal_strlit("1M");
    let once = sect.update(0, rotated(sect[0])->0);
    let twice = once.update(0, rotated(once[0])->0);
    assert(twice.update(0, rotated(twice[0])->0) =~= sect);
}

/// No section moves to itself.
pub proof fn lemma_relocation_moves(sect: Seq<char>)
    ensures
        relocated_section(sect) != Some(sect),
{
    reveal_strlit("1M");
    reveal_strlit("8");
    if sect.len() > 0 && rotated(sect[0]) is Some {
        assert(sect.update(0, rotated(sect[0])->0)[0] != sect[0]);
    }
}

/// The section that `sect` moves to, if it moves.
pub fn relocate_section(sect: &str) -> (moved: Option<String>)
    ensures
        moved.deep_view() == relocated_section(sect@),
{
    let mut chars = chars_of(sect);
    if is_str(chars.as_slice(), "1M") {
        return Some("8".to_owned());
    }
    if chars.len() == 0 {
        return None;
    }
    let head = chars[0];
    let next = if head == '4' {
        '5'
    } else if head == '5' {
        '7'
    } else if head == '7' {
        '4'
    } else {
        return None;
    };
    chars.set(0, next);
    Some(string_of(chars.as_slice()))
}

/// The record that `r` becomes.
pub fn relocate(r: &Record) -> (moved: Record)
    ensures
        moved@ == relocated(r@),
{
    match relocate_section(r.sect.as_str()) {
        Some(sect) => Record {
            link: r.link,
            sect,
            page: r.page.clone(),
            pkg: r.pkg.clone(),
            orig_sect: Some(r.sect.clone()),
        },
        None => r.clone(),
    }
}

impl Database {
    /// The registry after the relocation: every record relocated, and the
    /// records sorted anew.
    pub fn transform(&self) -> (derived: Database)
        ensures
            sorted_of(relocated_all(self@), derived@),
            derived@ == sorted(relocated_all(self@)),
    {
        let mut out: Vec<Record> = Vec::new();
        let mut i: usize = 0;
        while i < self.records.len()
            invariant
                i <= self.records.len(),
                record_views(out@) == relocated_all(self@.take(i as int)),
            decreases self.records.len() - i,
        {
            let moved = relocate(&self.records[i]);
            proof {
                assert(self@.take(i + 1) =~= self@.take(i as int).push(self@[i as int]));
                assert(record_views(out@.push(moved)) =~= record_views(out@).push(moved@));
                assert(relocated_all(self@.take(i as int).push(self@[i as int]))
                    =~= relocated_all(self@.take(i as int)).push(relocated(self@[i as int])));
            }
            out.push(moved);
            i += 1;
        }
        assert(self@.take(self.records.len() as int) =~= self@);
        sort_records(&mut out);
        Database { records: out }
    }

    /// The records of this registry whose place `derived` gives to a page
    /// that moved there, in the order of this registry.
    pub fn obscured_by(&self, derived: &Database) -> (lost: Vec<Record>)
        ensures
            record_views(lost@) == self@.filter(|r: RecordView| obscures(derived@, r)),
    {
        let ghost f = |r: RecordView| obscures(derived@, r);
        let mut lost: Vec<Record> = Vec::new();
        let mut i: usize = 0;
        proof {
            assert(self@.take(0) =~= Seq::empty());
            assert(Seq::<RecordView>::empty().filter(f) =~= Seq::empty()) by {
                reveal(Seq::filter);
            }
            assert(record_views(lost@) =~= Seq::empty());
        }
        while i < self.records.len()
            invariant
                i <= self.records.len(),
                f == |r: RecordView| obscures(derived@, r),
                record_views(lost@) == self@.take(i as int).filter(f),
            decreases self.records.len() - i,
        {
            let r = &self.records[i];
            proof {
                assert(self@.take(i + 1) =~= self@.take(i as int).push(r@));
                Seq::lemma_filter_push(self@.take(i as int), r@, f);
            }
            let taken = match derived.lookup(r.sect.as_str(), r.page.as_str()) {
                Some(c) => c.orig_sect.is_some(),
                None => false,
            };
            if taken {
                let copy = r.clone();
                assert(record_views(lost@.push(copy)) =~= record_views(lost@).push(r@));
                lost.push(copy);
            }
            i += 1;
        }
        assert(self@.take(self.records.len() as int) =~= self@);
        lost
    }

    /// The records that the relocation would obscure: those whose section
    /// and page go to a page that moves there.
    pub fn simulate(&self) -> (lost: Vec<Record>)
        ensures
            record_views(lost@) == self@.filter(
                |r: RecordView| obscures(relocated_all(self@), r),
            ),
    {
        let derived = self.transform();
        let lost = self.obscured_by(&derived);
        proof {
            let f = |r: RecordView| obscures(derived@, r);
            let g = |r: RecordView| obscures(relocated_all(self@), r);
            assert forall|r: RecordView| #[trigger] f(r) == g(r) by {
                assert(with_key(derived@, r.sect, r.page) == with_key(
                    relocated_all(self@),
                    r.sect,
                    r.page,
                ));
            }
            assert(f =~= g);
        }
        lost
    }
}

} // verus!
