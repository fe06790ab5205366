//! One entry of the registry, and the order of entries.

use crate::order::{
    compare, compare_str, lemma_compare_equal, lemma_compare_flip, lemma_less_cotransitive, less,
    Order,
};
use vstd::prelude::*;

verus! {

/// One manual page, or an alias of one, and the package that ships it.
#[derive(Debug, PartialEq, Eq)]
pub struct Record {
    /// An alias: a link to a page, not the page's own file.
    pub link: bool,
    /// The section the page stands in.
    pub sect: String,
    /// The name of the page.
    pub page: String,
    /// The package that owns the page.
    pub pkg: String,
    /// The section the page stood in before a simulated relocation.
    pub orig_sect: Option<String>,
}

/// The view of `Record`.
pub struct RecordView {
    pub link: bool,
    pub sect: Seq<char>,
    pub page: Seq<char>,
    pub pkg: Seq<char>,
    pub orig_sect: Option<Seq<char>>,
}

impl View for Record {
    type V = RecordView;

    open spec fn view(&self) -> RecordView {
        RecordView {
            link: self.link,
            sect: self.sect@,
            page: self.page@,
            pkg: self.pkg@,
            orig_sect: match self.orig_sect {
                Some(s) => Some(s@),
                None => None,
            },
        }
    }
}

impl Clone for Record {
    fn clone(&self) -> (r: Record)
        ensures
            r@ == self@,
    {
        Record {
            link: self.link,
            sect: self.sect.clone(),
            page: self.page.clone(),
            pkg: self.pkg.clone(),
            orig_sect: match &self.orig_sect {
                Some(s) => Some(s.clone()),
                None => None,
            },
        }
    }
}

/// The views of the records of `v`, in order.
pub open spec fn record_views(v: Seq<Record>) -> Seq<RecordView> {
    v.map_values(|r: Record| r@)
}

/// `r` is the page `page` of section `sect`.
pub open spec fn has_key(r: RecordView, sect: Seq<char>, page: Seq<char>) -> bool {
    r.sect == sect && r.page == page
}

/// The records of `s` with the key `sect`, `page`, in the order of `s`.
pub open spec fn with_key(s: Seq<RecordView>, sect: Seq<char>, page: Seq<char>) -> Seq<
    RecordView,
> {
    s.filter(|r: RecordView| has_key(r, sect, page))
}

/// `a` stands before `b`: by section, and within a section by page.
pub open spec fn key_less(a: RecordView, b: RecordView) -> bool {
    less(a.sect, b.sect) || (a.sect == b.sect && less(a.page, b.page))
}

/// No record of `s` stands before one that precedes it in `s`.
pub open spec fn in_order(s: Seq<RecordView>) -> bool {
    forall|i: int, j: int| 0 <= i < j < s.len() ==> !key_less(#[trigger] s[j], #[trigger] s[i])
}

/// `b` holds the records of `a` in ascending order of their keys, those of
/// one key in the order they have in `a`.
pub open spec fn sorted_of(a: Seq<RecordView>, b: Seq<RecordView>) -> bool {
    &&& b.len() == a.len()
    &&& in_order(b)
    &&& forall|sect: Seq<char>, page: Seq<char>| #[trigger]
        with_key(b, sect, page) == with_key(a, sect, page)
}

/// The sorted form of `a`: `lemma_sorted_exists` shows that there is one,
/// `lemma_sorted_unique` that there is no other.
pub open spec fn sorted(a: Seq<RecordView>) -> Seq<RecordView> {
    choose|b: Seq<RecordView>| sorted_of(a, b)
}

/// No record stands before itself, nor before one that stands before it.
pub proof fn lemma_key_less_asymmetric(a: RecordView, b: RecordView)
    requires
        key_less(a, b),
    ensures
        !key_less(b, a),
        !has_key(b, a.sect, a.page),
{
    lemma_compare_flip(a.sect, b.sect);
    lemma_compare_flip(a.page, b.page);
    lemma_compare_equal(a.sect, b.sect);
    lemma_compare_equal(a.page, b.page);
}

/// Of three records, the first of which stands before the second, the third
/// stands after the first or before the second.
pub proof fn lemma_key_less_cotransitive(x: RecordView, a: RecordView, b: RecordView)
    requires
        key_less(x, a),
    ensures
        key_less(x, b) || key_less(b, a),
{
    lemma_compare_flip(x.sect, b.sect);
    lemma_compare_equal(x.sect, b.sect);
    lemma_compare_flip(b.sect, a.sect);
    lemma_compare_equal(b.sect, a.sect);
    lemma_compare_flip(x.page, b.page);
    lemma_compare_equal(x.page, b.page);
    if less(x.sect, a.sect) {
        lemma_less_cotransitive(x.sect, a.sect, b.sect);
    } else {
        if compare(x.sect, b.sect) is Equal {
            lemma_less_cotransitive(x.page, a.page, b.page);
        }
    }
}

/// Whether `a` stands before `b`.
pub fn stands_before(a: &Record, b: &Record) -> (before: bool)
    ensures
        before == key_less(a@, b@),
{
    proof {
        lemma_compare_equal(a.sect@, b.sect@);
    }
    match compare_str(a.sect.as_str(), b.sect.as_str()) {
        Order::Less => true,
        Order::Greater => false,
        Order::Equal => compare_str(a.page.as_str(), b.page.as_str()) == Order::Less,
    }
}

/// Two records of which neither stands before the other have the same
/// key.
pub proof fn lemma_key_same(a: RecordView, b: RecordView)
    requires
        !key_less(a, b),
        !key_less(b, a),
    ensures
        has_key(b, a.sect, a.page),
{
    lemma_compare_flip(a.sect, b.sect);
    lemma_compare_equal(a.sect, b.sect);
    lemma_compare_flip(a.page, b.page);
    lemma_compare_equal(a.page, b.page);
}

/// Two ordered sequences that hold, for every key, the same records in the
/// same order are the same sequence.
pub proof fn lemma_groups_decide(b1: Seq<RecordView>, b2: Seq<RecordView>)
    requires
        b1.len() == b2.len(),
        in_order(b1),
        in_order(b2),
        forall|sect: Seq<char>, page: Seq<char>| #[trigger]
            with_key(b1, sect, page) == with_key(b2, sect, page),
    ensures
        b1 == b2,
    decreases b1.len(),
{
    if b1.len() == 0 {
        assert(b1 =~= b2);
    } else {
        let n = b1.len() as int;
        let x = b1.last();
        let y = b2.last();
        let r1 = b1.drop_last();
        let r2 = b2.drop_last();
        assert(b1 =~= r1.push(x));
        assert(b2 =~= r2.push(y));
        let fx = |r: RecordView| has_key(r, x.sect, x.page);
        let fy = |r: RecordView| has_key(r, y.sect, y.page);
        Seq::lemma_filter_push(r1, x, fx);
        Seq::lemma_filter_push(r2, y, fy);
        Seq::lemma_filter_push(r1, x, fy);
        Seq::lemma_filter_push(r2, y, fx);
        assert(with_key(b1, x.sect, x.page) == with_key(b2, x.sect, x.page));
        assert(with_key(b1, y.sect, y.page) == with_key(b2, y.sect, y.page));
        // x is held by b2, and y by b1
        let gx = with_key(b2, x.sect, x.page);
        assert(gx.last() == x);
        assert(gx.contains(x));
        b2.lemma_filter_contains_rev(fx, x);
        let j = choose|j: int| 0 <= j < b2.len() && b2[j] == x;
        let gy = with_key(b1, y.sect, y.page);
        assert(gy.last() == y);
        assert(gy.contains(y));
        b1.lemma_filter_contains_rev(fy, y);
        let i = choose|i: int| 0 <= i < b1.len() && b1[i] == y;
        if j < n - 1 {
            assert(!key_less(b2[n - 1], b2[j]));
        }
        if i < n - 1 {
            assert(!key_less(b1[n - 1], b1[i]));
        }
        if x != y {
            lemma_key_same(x, y);
            assert(fx(y));
        }
        assert(x == y);
        assert forall|sect: Seq<char>, page: Seq<char>| #[trigger]
            with_key(r1, sect, page) == with_key(r2, sect, page) by {
            let f = |r: RecordView| has_key(r, sect, page);
            Seq::lemma_filter_push(r1, x, f);
            Seq::lemma_filter_push(r2, y, f);
            assert(with_key(b1, sect, page) == with_key(b2, sect, page));
            if f(x) {
                assert(r1.filter(f) =~= r1.filter(f).push(x).drop_last());
                assert(r2.filter(f) =~= r2.filter(f).push(y).drop_last());
            }
        }
        assert forall|i: int, j: int| 0 <= i < j < r1.len() implies !key_less(
            #[trigger] r1[j],
            #[trigger] r1[i],
        ) by {
            assert(r1[i] == b1[i] && r1[j] == b1[j]);
        }
        assert forall|i: int, j: int| 0 <= i < j < r2.len() implies !key_less(
            #[trigger] r2[j],
            #[trigger] r2[i],
        ) by {
            assert(r2[i] == b2[i] && r2[j] == b2[j]);
        }
        lemma_groups_decide(r1, r2);
    }
}

/// A sequence has one sorted form only.
pub proof fn lemma_sorted_unique(a: Seq<RecordView>, b1: Seq<RecordView>, b2: Seq<RecordView>)
    requires
        sorted_of(a, b1),
        sorted_of(a, b2),
    ensures
        b1 == b2,
{
    assert forall|sect: Seq<char>, page: Seq<char>| #[trigger]
        with_key(b1, sect, page) == with_key(b2, sect, page) by {
        assert(with_key(b1, sect, page) == with_key(a, sect, page));
        assert(with_key(b2, sect, page) == with_key(a, sect, page));
    }
    lemma_groups_decide(b1, b2);
}

/// The sequence `s` with the record at `i` moved to `p`.
pub open spec fn moved(s: Seq<RecordView>, i: int, p: int) -> Seq<RecordView> {
    s.remove(i).insert(p, s[i])
}

/// Moving a record forward past records that stand after it leaves the
/// records of every key in the order they had.
pub proof fn lemma_move_keeps_groups(s: Seq<RecordView>, i: int, p: int)
    requires
        0 <= p <= i < s.len(),
        forall|j: int| p <= j < i ==> key_less(s[i], #[trigger] s[j]),
    ensures
        forall|sect: Seq<char>, page: Seq<char>| #[trigger]
            with_key(moved(s, i, p), sect, page) == with_key(s, sect, page),
{
    let x = s[i];
    let a = s.subrange(0, p);
    let b = s.subrange(p, i);
    let c = s.subrange(i + 1, s.len() as int);
    let one = Seq::<RecordView>::empty().push(x);
    assert(s =~= a + b + one + c);
    assert(moved(s, i, p) =~= a + one + b + c);
    assert forall|sect: Seq<char>, page: Seq<char>| #[trigger]
        with_key(moved(s, i, p), sect, page) == with_key(s, sect, page) by {
        let f = |r: RecordView| has_key(r, sect, page);
        Seq::filter_distributes_over_add(a + b + one, c, f);
        Seq::filter_distributes_over_add(a + b, one, f);
        Seq::filter_distributes_over_add(a, b, f);
        Seq::filter_distributes_over_add(a + one + b, c, f);
        Seq::filter_distributes_over_add(a + one, b, f);
        Seq::filter_distributes_over_add(a, one, f);
        Seq::lemma_filter_push(Seq::<RecordView>::empty(), x, f);
        assert(Seq::<RecordView>::empty().filter(f) =~= Seq::empty()) by {
            reveal(Seq::filter);
        }
        if f(x) {
            assert(b.all(|r: RecordView| !f(r))) by {
                assert forall|k: int| 0 <= k < b.len() implies !f(#[trigger] b[k]) by {
                    assert(b[k] == s[p + k]);
                    lemma_key_less_asymmetric(x, b[k]);
                }
            }
            b.lemma_all_neg_filter_empty(f);
            assert(b.filter(f) =~= Seq::empty());
            assert(a.filter(f) + one.filter(f) + b.filter(f) + c.filter(f) =~= a.filter(f)
                + b.filter(f) + one.filter(f) + c.filter(f));
        } else {
            assert(a.filter(f) + one.filter(f) + b.filter(f) + c.filter(f) =~= a.filter(f)
                + b.filter(f) + one.filter(f) + c.filter(f));
        }
    }
}

/// Moving the record that follows an ordered run to the place in the run
/// where it belongs makes the run one longer.
pub proof fn lemma_move_in_order(s: Seq<RecordView>, i: int, p: int)
    requires
        0 <= p <= i < s.len(),
        in_order(s.take(i)),
        forall|j: int| p <= j < i ==> key_less(s[i], #[trigger] s[j]),
        p > 0 ==> !key_less(s[i], s[p - 1]),
    ensures
        in_order(moved(s, i, p).take(i + 1)),
{
    let x = s[i];
    let run = s.take(i);
    let t = moved(s, i, p).take(i + 1);
    assert forall|m: int, n: int| 0 <= m < n < t.len() implies !key_less(
        #[trigger] t[n],
        #[trigger] t[m],
    ) by {
        if n < p {
            assert(t[m] == run[m] && t[n] == run[n]);
        } else if n == p {
            assert(t[m] == run[m]);
            if key_less(x, run[m]) {
                lemma_key_less_cotransitive(x, run[m], run[p - 1]);
                if m < p - 1 {
                    assert(!key_less(run[p - 1], run[m]));
                } else {
                    lemma_key_less_asymmetric(run[p - 1], run[m]);
                }
            }
        } else if m < p {
            assert(t[m] == run[m] && t[n] == run[n - 1]);
        } else if m == p {
            assert(t[n] == s[n - 1]);
            lemma_key_less_asymmetric(x, s[n - 1]);
        } else {
            assert(t[m] == run[m - 1] && t[n] == run[n - 1]);
        }
    }
}

/// The place of `x` in the ordered `t`: behind the last record that `x`
/// does not stand before.
pub open spec fn place(t: Seq<RecordView>, x: RecordView) -> int
    decreases t.len(),
{
    if t.len() > 0 && key_less(x, t.last()) {
        place(t.drop_last(), x)
    } else {
        t.len() as int
    }
}

/// `x` stands before every record from its place on, and not before the
/// record ahead of its place.
pub proof fn lemma_place(t: Seq<RecordView>, x: RecordView)
    ensures
        0 <= place(t, x) <= t.len(),
        forall|j: int| place(t, x) <= j < t.len() ==> key_less(x, #[trigger] t[j]),
        place(t, x) > 0 ==> !key_less(x, t[place(t, x) - 1]),
    decreases t.len(),
{
    if t.len() > 0 && key_less(x, t.last()) {
        lemma_place(t.drop_last(), x);
        assert forall|j: int| place(t, x) <= j < t.len() implies key_less(x, #[trigger] t[j]) by {
            if j < t.len() - 1 {
                assert(t[j] == t.drop_last()[j]);
            }
        }
    }
}

/// Every sequence has a sorted form, which holds the same records, each as
/// often as the sequence does.
pub proof fn lemma_sorted_exists(a: Seq<RecordView>)
    ensures
        sorted_of(a, sorted(a)),
        sorted(a).to_multiset() == a.to_multiset(),
    decreases a.len(),
{
    if a.len() == 0 {
        assert(sorted_of(a, a));
        lemma_sorted_unique(a, a, sorted(a));
    } else {
        let rest = a.drop_last();
        let x = a.last();
        lemma_sorted_exists(rest);
        let t = sorted(rest);
        let s = t.push(x);
        let n = t.len() as int;
        let p = place(t, x);
        lemma_place(t, x);
        assert(s.take(n) =~= t);
        assert forall|j: int| p <= j < n implies key_less(s[n], #[trigger] s[j]) by {
            assert(s[j] == t[j]);
        }
        lemma_move_keeps_groups(s, n, p);
        lemma_move_in_order(s, n, p);
        let b = moved(s, n, p);
        assert(b.take(n + 1) =~= b);
        assert(a =~= rest.push(x));
        assert forall|sect: Seq<char>, page: Seq<char>| #[trigger]
            with_key(b, sect, page) == with_key(a, sect, page) by {
            let f = |r: RecordView| has_key(r, sect, page);
            Seq::lemma_filter_push(t, x, f);
            Seq::lemma_filter_push(rest, x, f);
            assert(with_key(b, sect, page) == with_key(s, sect, page));
            assert(with_key(t, sect, page) == with_key(rest, sect, page));
        }
        assert(sorted_of(a, b));
        lemma_sorted_unique(a, b, sorted(a));
        assert(b.to_multiset() == a.to_multiset()) by {
            vstd::seq_lib::to_multiset_build(t, x);
            vstd::seq_lib::to_multiset_build(rest, x);
            vstd::seq_lib::to_multiset_remove(s, n);
            vstd::seq_lib::to_multiset_insert(s.remove(n), p, x);
            assert(s.remove(n) =~= t);
        }
    }
}

/// Sorts `v` by section and page, keeping records of one key in the order
/// they have.
pub fn sort_records(v: &mut Vec<Record>)
    ensures
        sorted_of(record_views(old(v)@), record_views(final(v)@)),
        record_views(final(v)@) == sorted(record_views(old(v)@)),
{
    let mut i: usize = 0;
    proof {
        assert(record_views(v@).take(0) =~= Seq::empty());
    }
    while i < v.len()
        invariant
            i <= v.len(),
            v.len() == old(v).len(),
            in_order(record_views(v@).take(i as int)),
            forall|sect: Seq<char>, page: Seq<char>| #[trigger]
                with_key(record_views(v@), sect, page) == with_key(
                    record_views(old(v)@),
                    sect,
                    page,
                ),
        decreases v.len() - i,
    {
        let mut p: usize = i;
        while p > 0 && stands_before(&v[i], &v[p - 1])
            invariant
                p <= i < v.len(),
                forall|j: int| p <= j < i ==> key_less(v@[i as int]@, #[trigger] v@[j]@),
            decreases p,
        {
            p -= 1;
        }
        let ghost s = record_views(v@);
        proof {
            assert forall|j: int| p <= j < i implies key_less(s[i as int], #[trigger] s[j]) by {
                assert(key_less(v@[i as int]@, v@[j]@));
            }
            lemma_move_keeps_groups(s, i as int, p as int);
            lemma_move_in_order(s, i as int, p as int);
        }
        if p < i {
            let x = v.remove(i);
            v.insert(p, x);
            assert(record_views(v@) =~= moved(s, i as int, p as int));
        } else {
            assert(moved(s, i as int, p as int) =~= s);
        }
        i += 1;
    }
    proof {
        assert(record_views(v@).take(v.len() as int) =~= record_views(v@));
        let a = record_views(old(v)@);
        assert(sorted_of(a, record_views(v@)));
        lemma_sorted_unique(a, record_views(v@), sorted(a));
    }
}

} // verus!
