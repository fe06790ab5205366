//! The registry as text: one record on a line, as four fields between
//! tabs. The first field is `l` for an alias and `f` for a page's own file;
//! section, page and owner follow.

use crate::record::{record_views, Record, RecordView};
use crate::registry::{entry, Database};
use crate::text::{
    chars_of, free_of, is_str, lemma_lines_cons, lemma_lines_hold_no_line_feed,
    lemma_pieces_of_line, lemma_split_cons, lemma_split_pieces, lemma_split_single, lines,
    lines_of, split, split_at_each, string_of, views,
};
use vstd::prelude::*;
use vstd::string::StringExecFns;

verus! {

/// What is wrong with a line.
#[derive(Clone, Copy, PartialEq, Eq, Debug, Structural)]
pub enum Fault {
    /// It does not have four fields.
    Shape,
    /// Its first field is neither `l` nor `f`.
    Kind,
}

/// Why a text is no registry: the first line in fault, counted from 0, and
/// its fault.
#[derive(Clone, Copy, PartialEq, Eq, Debug, Structural)]
pub struct LoadError {
    pub line: usize,
    pub fault: Fault,
}

/// The fault of a line, if it has one.
pub open spec fn fault_of(l: Seq<char>) -> Option<Fault> {
    let fields = split(l, '\t');
    if fields.len() != 4 {
        Some(Fault::Shape)
    } else if fields[0] != "l"@ && fields[0] != "f"@ {
        Some(Fault::Kind)
    } else {
        None
    }
}

/// The record that a line without fault stands for.
pub open spec fn parsed(l: Seq<char>) -> RecordView {
    let fields = split(l, '\t');
    entry(fields[0] == "l"@, fields[1], fields[2], fields[3])
}

/// No line of `ls` has a fault.
pub open spec fn faultless(ls: Seq<Seq<char>>) -> bool {
    forall|i: int| 0 <= i < ls.len() ==> fault_of(#[trigger] ls[i]) is None
}

/// The records that a text stands for, line by line, where no line has a
/// fault.
pub open spec fn loaded(text: Seq<char>) -> Option<Seq<RecordView>> {
    if faultless(lines(text)) {
        Some(lines(text).map_values(|l: Seq<char>| parsed(l)))
    } else {
        None
    }
}

/// The line that stands for a record.
pub open spec fn row(r: RecordView) -> Seq<char> {
    (if r.link {
        "l"@
    } else {
        "f"@
    }) + seq!['\t'] + r.sect + seq!['\t'] + r.page + seq!['\t'] + r.pkg
}

/// The text that stands for the records `s`: their lines in order, each
/// ended by a line feed.
pub open spec fn persisted(s: Seq<RecordView>) -> Seq<char>
    decreases s.len(),
{
    if s.len() == 0 {
        Seq::empty()
    } else {
        row(s[0]) + seq!['\n'] + persisted(s.drop_first())
    }
}

/// A record that its line gives back: it has no provenance, its fields hold
/// neither tab nor line feed, and its owner does not end in a carriage
/// return.
pub open spec fn plain(r: RecordView) -> bool {
    &&& r.orig_sect is None
    &&& free_of(r.sect, '\t') && free_of(r.sect, '\n')
    &&& free_of(r.page, '\t') && free_of(r.page, '\n')
    &&& free_of(r.pkg, '\t') && free_of(r.pkg, '\n')
    &&& r.pkg.len() == 0 || r.pkg.last() != '\r'
}

/// The line of a plain record has no fault and stands for the record.
pub proof fn lemma_row_parses(r: RecordView)
    requires
        plain(r),
    ensures
        fault_of(row(r)) is None,
        parsed(row(r)) == r,
        free_of(row(r), '\n'),
        row(r).len() > 0,
        row(r).last() != '\r',
{
    reveal_strlit("l");
    reveal_strlit("f");
    let kind = if r.link {
        "l"@
    } else {
        "f"@
    };
    let tab = seq!['\t'];
    let after_page = r.pkg;
    let after_sect = r.page + tab + after_page;
    let after_kind = r.sect + tab + after_sect;
    assert(row(r) =~= kind + tab + after_kind);
    lemma_split_cons(kind, '\t', after_kind);
    lemma_split_cons(r.sect, '\t', after_sect);
    lemma_split_cons(r.page, '\t', after_page);
    lemma_split_single(r.pkg, '\t');
    assert(split(row(r), '\t') =~= seq![kind, r.sect, r.page, r.pkg]);
    assert("l"@ != "f"@) by {
        assert("l"@[0] != "f"@[0]);
    }
}

/// Loading what was persisted gives the records back, where each of them
/// is plain.
pub proof fn lemma_load_persisted(s: Seq<RecordView>)
    requires
        forall|i: int| 0 <= i < s.len() ==> plain(#[trigger] s[i]),
    ensures
        lines(persisted(s)) == s.map_values(|r: RecordView| row(r)),
        loaded(persisted(s)) == Some(s),
    decreases s.len(),
{
    let rows = s.map_values(|r: RecordView| row(r));
    if s.len() == 0 {
        assert(lines(persisted(s)) =~= rows);
    } else {
        let rest = s.drop_first();
        lemma_load_persisted(rest);
        lemma_row_parses(s[0]);
        lemma_lines_cons(row(s[0]), persisted(rest));
        assert(lines(persisted(s)) =~= rows);
    }
    assert forall|i: int| 0 <= i < rows.len() implies fault_of(#[trigger] rows[i]) is None by {
        lemma_row_parses(s[i]);
    }
    assert(rows.map_values(|l: Seq<char>| parsed(l)) =~= s) by {
        assert forall|i: int| 0 <= i < s.len() implies parsed(rows[i]) == s[i] by {
            lemma_row_parses(s[i]);
        }
    }
}

/// The records of a text that loads are plain, but for a carriage return
/// at the end of an owner.
pub proof fn lemma_loaded_fields(text: Seq<char>, i: int)
    requires
        loaded(text) is Some,
        0 <= i < loaded(text)->0.len(),
    ensures
        ({
            let r = loaded(text)->0[i];
            r.pkg.len() == 0 || r.pkg.last() != '\r' ==> plain(r)
        }),
{
    let l = lines(text)[i];
    lemma_lines_hold_no_line_feed(text);
    lemma_split_pieces(l, '\t');
    let fields = split(l, '\t');
    assert(fault_of(l) is None);
    lemma_pieces_of_line(l, '\t', '\n');
}

/// Persisting what was loaded and loading it again gives the same records,
/// in the same order, where no owner ends in a carriage return.
pub proof fn lemma_round_trip(text: Seq<char>)
    requires
        loaded(text) is Some,
        forall|i: int|
            0 <= i < loaded(text)->0.len() ==> {
                let r = #[trigger] loaded(text)->0[i];
                r.pkg.len() == 0 || r.pkg.last() != '\r'
            },
    ensures
        loaded(persisted(loaded(text)->0)) == loaded(text),
{
    let s = loaded(text)->0;
    assert forall|i: int| 0 <= i < s.len() implies plain(#[trigger] s[i]) by {
        lemma_loaded_fields(text, i);
    }
    lemma_load_persisted(s);
}

impl Database {
    /// Reads a registry from its text. The records stand in the order of
    /// the lines; nothing is sorted and no key is refused.
    pub fn load(text: &str) -> (r: Result<Database, LoadError>)
        ensures
            match r {
                Ok(db) => loaded(text@) == Some(db@),
                Err(e) => {
                    &&& e.line < lines(text@).len()
                    &&& fault_of(lines(text@)[e.line as int]) == Some(e.fault)
                    &&& faultless(lines(text@).take(e.line as int))
                },
            },
    {
        let chars = chars_of(text);
        let ls = lines_of(chars.as_slice());
        let mut records: Vec<Record> = Vec::new();
        let mut i: usize = 0;
        proof {
            assert(views(ls@).take(0).map_values(|l: Seq<char>| parsed(l)) =~= Seq::empty());
            assert(record_views(records@) =~= Seq::empty());
        }
        while i < ls.len()
            invariant
                i <= ls.len(),
                views(ls@) == lines(text@),
                faultless(views(ls@).take(i as int)),
                record_views(records@) == views(ls@).take(i as int).map_values(
                    |l: Seq<char>| parsed(l),
                ),
            decreases ls.len() - i,
        {
            let l = ls[i].as_slice();
            assert(views(ls@)[i as int] == l@);
            let fields = split_at_each(l, '\t');
            if fields.len() != 4 {
                return Err(LoadError { line: i, fault: Fault::Shape });
            }
            assert(views(fields@)[0] == fields@[0]@);
            assert(views(fields@)[1] == fields@[1]@);
            assert(views(fields@)[2] == fields@[2]@);
            assert(views(fields@)[3] == fields@[3]@);
            let link = if is_str(fields[0].as_slice(), "l") {
                true
            } else if is_str(fields[0].as_slice(), "f") {
                false
            } else {
                return Err(LoadError { line: i, fault: Fault::Kind });
            };
            let rec = Record {
                link,
                sect: string_of(fields[1].as_slice()),
                page: string_of(fields[2].as_slice()),
                pkg: string_of(fields[3].as_slice()),
                orig_sect: None,
            };
            proof {
                let all = views(ls@);
                let f = |l: Seq<char>| parsed(l);
                assert(rec@ == parsed(l@));
                assert(all.take(i + 1) =~= all.take(i as int).push(l@));
                assert(all.take(i + 1).map_values(f) =~= all.take(i as int).map_values(f).push(
                    parsed(l@),
                ));
                assert(record_views(records@.push(rec)) =~= record_views(records@).push(rec@));
            }
            records.push(rec);
            i += 1;
        }
        assert(views(ls@).take(ls.len() as int) =~= views(ls@));
        Ok(Database { records })
    }

    /// Writes the registry as text, in the order of its records. What a
    /// record holds of its provenance is not written.
    pub fn persist(&self) -> (text: String)
        ensures
            text@ == persisted(self@),
    {
        let mut out = String::new();
        let mut i: usize = 0;
        proof {
            assert(self@.skip(0) =~= self@);
            assert(out@ + persisted(self@) =~= persisted(self@));
        }
        while i < self.records.len()
            invariant
                i <= self.records.len(),
                out@ + persisted(self@.skip(i as int)) == persisted(self@),
            decreases self.records.len() - i,
        {
            let r = &self.records[i];
            let ghost before = out@;
            out.append(if r.link {
                "l"
            } else {
                "f"
            });
            out.push('\t');
            out.append(r.sect.as_str());
            out.push('\t');
            out.append(r.page.as_str());
            out.push('\t');
            out.append(r.pkg.as_str());
            out.push('\n');
            proof {
                let rest = self@.skip(i as int);
                assert(rest[0] == r@);
                assert(rest.drop_first() =~= self@.skip(i + 1));
                assert(out@ =~= before + (row(r@) + seq!['\n']));
                assert(out@ + persisted(self@.skip(i + 1)) =~= before + persisted(rest));
            }
            i += 1;
        }
        assert(out@ + persisted(self@.skip(self.records.len() as int)) =~= out@);
        out
    }
}

} // verus!
