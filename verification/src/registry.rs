//! The registry: which package owns which page of which section.

use crate::order::same_str;
use crate::record::{
    has_key, in_order, record_views, sort_records, sorted, sorted_of, with_key, Record,
    RecordView,
};
use vstd::prelude::*;

verus! {

/// The records of a corpus. `insert` keeps them in ascending order of
/// section and page and admits no key twice; the other ways to make a
/// registry keep the order they are given.
#[derive(Debug, PartialEq, Eq)]
pub struct Database {
    pub records: Vec<Record>,
}

impl View for Database {
    type V = Seq<RecordView>;

    open spec fn view(&self) -> Seq<RecordView> {
        record_views(self.records@)
    }
}

/// A record that `insert` refused, and the record that holds its key.
#[derive(Debug, PartialEq, Eq)]
pub struct Conflict {
    pub new: Record,
    pub existing: Record,
}

/// The first record of `s` with the key `sect`, `page`.
pub open spec fn first_with_key(s: Seq<RecordView>, sect: Seq<char>, page: Seq<char>) -> Option<
    RecordView,
> {
    let group = with_key(s, sect, page);
    if group.len() > 0 {
        Some(group[0])
    } else {
        None
    }
}

/// No two records of `s` have the same key.
pub open spec fn conflict_free(s: Seq<RecordView>) -> bool {
    forall|sect: Seq<char>, page: Seq<char>| #[trigger] with_key(s, sect, page).len() <= 1
}

/// The record that `insert` makes of its arguments.
pub open spec fn entry(link: bool, sect: Seq<char>, page: Seq<char>, pkg: Seq<char>) -> RecordView {
    RecordView { link, sect, page, pkg, orig_sect: None }
}

/// What inserting `rec` makes of the registry `before`: where the key of
/// `rec` is held already, nothing; else `rec` joins the records, which are
/// then sorted.
pub open spec fn inserts(
    before: Seq<RecordView>,
    rec: RecordView,
    after: Seq<RecordView>,
    taken: bool,
) -> bool {
    if first_with_key(before, rec.sect, rec.page) is Some {
        !taken && after == before
    } else {
        taken && sorted_of(before.push(rec), after)
    }
}

/// A sequence whose first record with a key stands at `i` has that record
/// as the first of its key.
pub proof fn lemma_first_with_key_at(s: Seq<RecordView>, i: int, sect: Seq<char>, page: Seq<char>)
    requires
        0 <= i < s.len(),
        has_key(s[i], sect, page),
        forall|j: int| 0 <= j < i ==> !has_key(#[trigger] s[j], sect, page),
    ensures
        first_with_key(s, sect, page) == Some(s[i]),
{
    let f = |r: RecordView| has_key(r, sect, page);
    let head = s.take(i);
    let tail = s.skip(i + 1);
    assert(s =~= head.push(s[i]) + tail);
    assert(head.all(|r: RecordView| !f(r)));
    head.lemma_all_neg_filter_empty(f);
    Seq::lemma_filter_push(head, s[i], f);
    Seq::filter_distributes_over_add(head.push(s[i]), tail, f);
    assert(head.filter(f) =~= Seq::empty());
}

/// A sequence that holds no record with a key has no first record of it.
pub proof fn lemma_first_with_key_none(s: Seq<RecordView>, sect: Seq<char>, page: Seq<char>)
    requires
        forall|j: int| 0 <= j < s.len() ==> !has_key(#[trigger] s[j], sect, page),
    ensures
        first_with_key(s, sect, page) is None,
{
    let f = |r: RecordView| has_key(r, sect, page);
    assert(s.all(|r: RecordView| !f(r)));
    s.lemma_all_neg_filter_empty(f);
}

/// After a record was inserted, a record with the same section and page is
/// refused, whatever else it holds, and leaves the registry as it was.
pub proof fn lemma_second_insert_refused(
    s0: Seq<RecordView>,
    first: RecordView,
    s1: Seq<RecordView>,
    second: RecordView,
    s2: Seq<RecordView>,
    taken: bool,
)
    requires
        inserts(s0, first, s1, true),
        has_key(second, first.sect, first.page),
        inserts(s1, second, s2, taken),
    ensures
        !taken,
        s2 == s1,
{
    let f = |r: RecordView| has_key(r, first.sect, first.page);
    Seq::lemma_filter_push(s0, first, f);
    assert(with_key(s1, first.sect, first.page) == with_key(s0.push(first), first.sect, first.page));
}

/// Inserting into a registry that holds no key twice gives one that holds
/// no key twice.
pub proof fn lemma_insert_keeps_conflict_free(
    before: Seq<RecordView>,
    rec: RecordView,
    after: Seq<RecordView>,
    taken: bool,
)
    requires
        conflict_free(before),
        inserts(before, rec, after, taken),
    ensures
        conflict_free(after),
{
    if taken {
        assert forall|sect: Seq<char>, page: Seq<char>| #[trigger]
            with_key(after, sect, page).len() <= 1 by {
            let f = |r: RecordView| has_key(r, sect, page);
            Seq::lemma_filter_push(before, rec, f);
            assert(with_key(after, sect, page) == with_key(before.push(rec), sect, page));
            assert(with_key(before, sect, page).len() <= 1);
            if has_key(rec, sect, page) {
                assert(with_key(before, rec.sect, rec.page).len() == 0);
            }
        }
    }
}

impl Default for Database {
    fn default() -> (db: Database)
        ensures
            db@ == Seq::<RecordView>::empty(),
    {
        Database::new()
    }
}

impl Database {
    /// A registry without records.
    pub fn new() -> (db: Database)
        ensures
            db@ == Seq::<RecordView>::empty(),
    {
        let db = Database { records: Vec::new() };
        assert(db@ =~= Seq::<RecordView>::empty());
        db
    }

    /// Whether no two records have the same section and page.
    pub open spec fn is_conflict_free(&self) -> bool {
        conflict_free(self@)
    }

    /// Adds a record, unless its section and page are held already: then
    /// the registry stays as it is and the answer names the first record
    /// that holds them. After an addition the records are in order.
    pub fn insert(&mut self, link: bool, sect: &str, page: &str, pkg: &str) -> (r: Result<
        (),
        Conflict,
    >)
        ensures
            inserts(old(self)@, entry(link, sect@, page@, pkg@), final(self)@, r is Ok),
            r matches Err(c) ==> c.new@ == entry(link, sect@, page@, pkg@) && Some(c.existing@)
                == first_with_key(old(self)@, sect@, page@),
            r is Ok ==> final(self)@ == sorted(old(self)@.push(entry(link, sect@, page@, pkg@))),
            r is Ok ==> in_order(final(self)@),
            old(self).is_conflict_free() ==> final(self).is_conflict_free(),
    {
        let nr = Record {
            link,
            sect: sect.to_owned(),
            page: page.to_owned(),
            pkg: pkg.to_owned(),
            orig_sect: None,
        };
        let mut i: usize = 0;
        while i < self.records.len()
            invariant
                i <= self.records.len(),
                *self == *old(self),
                nr@ == entry(link, sect@, page@, pkg@),
                forall|j: int| 0 <= j < i ==> !has_key(#[trigger] self@[j], sect@, page@),
            decreases self.records.len() - i,
        {
            let r = &self.records[i];
            if same_str(r.sect.as_str(), sect) && same_str(r.page.as_str(), page) {
                proof {
                    lemma_first_with_key_at(self@, i as int, sect@, page@);
                }
                return Err(Conflict { new: nr, existing: r.clone() });
            }
            i += 1;
        }
        proof {
            lemma_first_with_key_none(self@, sect@, page@);
            assert(record_views(self.records@.push(nr)) =~= self@.push(nr@));
        }
        self.records.push(nr);
        sort_records(&mut self.records);
        proof {
            if old(self).is_conflict_free() {
                lemma_insert_keeps_conflict_free(
                    old(self)@,
                    entry(link, sect@, page@, pkg@),
                    self@,
                    true,
                );
            }
        }
        Ok(())
    }

    /// The first record with the given section and page, if there is one.
    pub fn lookup(&self, sect: &str, page: &str) -> (found: Option<Record>)
        ensures
            match found {
                Some(r) => first_with_key(self@, sect@, page@) == Some(r@),
                None => first_with_key(self@, sect@, page@) is None,
            },
    {
        let mut i: usize = 0;
        while i < self.records.len()
            invariant
                i <= self.records.len(),
                forall|j: int| 0 <= j < i ==> !has_key(#[trigger] self@[j], sect@, page@),
            decreases self.records.len() - i,
        {
            let r = &self.records[i];
            if same_str(r.page.as_str(), page) && same_str(r.sect.as_str(), sect) {
                proof {
                    lemma_first_with_key_at(self@, i as int, sect@, page@);
                }
                return Some(r.clone());
            }
            i += 1;
        }
        proof {
            lemma_first_with_key_none(self@, sect@, page@);
        }
        None
    }
}

} // verus!
