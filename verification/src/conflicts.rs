//! Pages that stand in more than one of the sections that trade places.
//!
//! The sections that begin with `4`, `5` or `7` form one family. A page
//! that stands in two sections of the family cannot come through the
//! relocation without a collision.

use crate::order::{
    compare_str, lemma_compare_equal, lemma_compare_flip, lemma_less_transitive, less, Order,
};
use crate::record::RecordView;
use crate::registry::Database;
use crate::text::chars_of;
use vstd::prelude::*;

verus! {

/// A page and the sections of the family that it stands in.
#[derive(Debug, PartialEq, Eq)]
pub struct PageConflict {
    pub page: String,
    pub sects: Vec<String>,
}

/// The views of the strings of `v`, in order.
pub open spec fn string_views(v: Seq<String>) -> Seq<Seq<char>> {
    v.map_values(|s: String| s@)
}

/// The view of `PageConflict`.
pub struct PageConflictView {
    pub page: Seq<char>,
    pub sects: Seq<Seq<char>>,
}

impl View for PageConflict {
    type V = PageConflictView;

    open spec fn view(&self) -> PageConflictView {
        PageConflictView { page: self.page@, sects: string_views(self.sects@) }
    }
}

/// The views of the entries of `v`, in order.
pub open spec fn conflict_views(v: Seq<PageConflict>) -> Seq<PageConflictView> {
    v.map_values(|c: PageConflict| c@)
}

/// A section of the family: one that begins with `4`, `5` or `7`.
pub open spec fn in_family(sect: Seq<char>) -> bool {
    sect.len() > 0 && (sect[0] == '4' || sect[0] == '5' || sect[0] == '7')
}

/// `r` is the page `page` in the section `sect`, a section of the family.
pub open spec fn listed(r: RecordView, page: Seq<char>, sect: Seq<char>) -> bool {
    r.page == page && r.sect == sect && in_family(sect)
}

/// The page `page` stands in the section `sect` of the family.
pub open spec fn stands_in(s: Seq<RecordView>, page: Seq<char>, sect: Seq<char>) -> bool {
    exists|i: int| 0 <= i < s.len() && #[trigger] listed(s[i], page, sect)
}

/// Each string of `v` stands before those that follow it.
pub open spec fn ascending(v: Seq<Seq<char>>) -> bool {
    forall|i: int, j: int| 0 <= i < j < v.len() ==> less(#[trigger] v[i], #[trigger] v[j])
}

/// `sects` are the sections of the family that `page` stands in, each
/// once, in ascending order.
pub open spec fn describes(s: Seq<RecordView>, page: Seq<char>, sects: Seq<Seq<char>>) -> bool {
    &&& ascending(sects)
    &&& forall|sect: Seq<char>| #[trigger] sects.contains(sect) <==> stands_in(s, page, sect)
}

/// The pages of `v` are in ascending order.
pub open spec fn pages_ascend(v: Seq<PageConflictView>) -> bool {
    forall|i: int, j: int| 0 <= i < j < v.len() ==> less(#[trigger] v[i].page, #[trigger] v[j].page)
}

/// `v` holds an entry for `page`.
pub open spec fn reports(v: Seq<PageConflictView>, page: Seq<char>) -> bool {
    exists|i: int| 0 <= i < v.len() && #[trigger] v[i].page == page
}

/// `page` stands in two sections of the family.
pub open spec fn shared(s: Seq<RecordView>, page: Seq<char>) -> bool {
    exists|a: Seq<char>, b: Seq<char>|
        a != b && #[trigger] stands_in(s, page, a) && #[trigger] stands_in(s, page, b)
}

/// One more record adds at most its own page and section to what stands
/// where.
pub proof fn lemma_stands_in_step(s: Seq<RecordView>, n: int, page: Seq<char>, sect: Seq<char>)
    requires
        0 <= n < s.len(),
    ensures
        stands_in(s.take(n + 1), page, sect) <==> stands_in(s.take(n), page, sect) || listed(
            s[n],
            page,
            sect,
        ),
{
    let a = s.take(n);
    let b = s.take(n + 1);
    if stands_in(b, page, sect) {
        let i = choose|i: int| 0 <= i < b.len() && #[trigger] listed(b[i], page, sect);
        if i < n {
            assert(listed(a[i], page, sect));
        }
    }
    if stands_in(a, page, sect) {
        let i = choose|i: int| 0 <= i < a.len() && #[trigger] listed(a[i], page, sect);
        assert(listed(b[i], page, sect));
    }
    if listed(s[n], page, sect) {
        assert(listed(b[n], page, sect));
    }
}

/// Whether a section belongs to the family.
pub fn is_family(sect: &str) -> (b: bool)
    ensures
        b == in_family(sect@),
{
    let chars = chars_of(sect);
    chars.len() > 0 && (chars[0] == '4' || chars[0] == '5' || chars[0] == '7')
}

/// Puts `x` into the ascending `v`, unless `v` holds it.
fn add_section(v: &mut Vec<String>, x: &str)
    requires
        ascending(string_views(old(v)@)),
    ensures
        ascending(string_views(final(v)@)),
        forall|y: Seq<char>| #[trigger]
            string_views(final(v)@).contains(y) <==> string_views(old(v)@).contains(y) || y == x@,
{
    let ghost before = string_views(v@);
    let mut k: usize = 0;
    while k < v.len() && compare_str(v[k].as_str(), x) == Order::Less
        invariant
            k <= v.len(),
            *v == *old(v),
            forall|j: int| 0 <= j < k ==> less(#[trigger] v@[j]@, x@),
        decreases v.len() - k,
    {
        k += 1;
    }
    proof {
        if k < v.len() {
            lemma_compare_equal(v@[k as int]@, x@);
            lemma_compare_flip(v@[k as int]@, x@);
        }
    }
    if k < v.len() && compare_str(v[k].as_str(), x) == Order::Equal {
        proof {
            assert(before[k as int] == x@);
            assert(before.contains(x@));
        }
    } else {
        let owned = x.to_owned();
        v.insert(k, owned);
        proof {
            let after = string_views(v@);
            assert(after =~= before.insert(k as int, x@));
            assert forall|i: int, j: int| 0 <= i < j < after.len() implies less(
                #[trigger] after[i],
                #[trigger] after[j],
            ) by {
                if j < k {
                    assert(less(before[i], before[j]));
                } else if j == k {
                    assert(after[i] == before[i]);
                    assert(less(old(v)@[i]@, x@));
                } else if i < k {
                    assert(less(before[i], before[j - 1]));
                } else if i == k {
                    assert(less(x@, before[k as int]));
                    if j - 1 > k {
                        assert(less(before[k as int], before[j - 1]));
                        lemma_less_transitive(x@, before[k as int], before[j - 1]);
                    }
                } else {
                    assert(less(before[i - 1], before[j - 1]));
                }
            }
            assert forall|y: Seq<char>| #[trigger]
                after.contains(y) <==> before.contains(y) || y == x@ by {
                if after.contains(y) {
                    let i = choose|i: int| 0 <= i < after.len() && after[i] == y;
                    if i < k {
                        assert(before[i] == y);
                    } else if i > k {
                        assert(before[i - 1] == y);
                    }
                }
                if before.contains(y) {
                    let i = choose|i: int| 0 <= i < before.len() && before[i] == y;
                    if i < k {
                        assert(after[i] == y);
                    } else {
                        assert(after[i + 1] == y);
                    }
                }
                if y == x@ {
                    assert(after[k as int] == y);
                }
            }
        }
    }
}

/// `g` is an entry for a page that stands in a section of the family, and
/// holds the sections it stands in.
pub open spec fn group_of(s: Seq<RecordView>, g: PageConflictView) -> bool {
    g.sects.len() >= 1 && describes(s, g.page, g.sects)
}

/// `gs` holds one entry for each page that stands in a section of the
/// family, in ascending order of the pages.
pub open spec fn index_of_pages(s: Seq<RecordView>, gs: Seq<PageConflictView>) -> bool {
    &&& pages_ascend(gs)
    &&& forall|i: int| 0 <= i < gs.len() ==> group_of(s, #[trigger] gs[i])
    &&& forall|page: Seq<char>, sect: Seq<char>| #[trigger]
        stands_in(s, page, sect) ==> reports(gs, page)
}

/// What stands before something is something else.
pub proof fn lemma_less_distinct(a: Seq<char>, b: Seq<char>)
    requires
        less(a, b),
    ensures
        a != b,
        !less(b, a),
{
    lemma_compare_equal(a, b);
    lemma_compare_flip(a, b);
}

/// A record outside the family changes nothing in the index of pages.
proof fn lemma_index_skips(s: Seq<RecordView>, n: int, gs: Seq<PageConflictView>)
    requires
        0 <= n < s.len(),
        !in_family(s[n].sect),
        index_of_pages(s.take(n), gs),
    ensures
        index_of_pages(s.take(n + 1), gs),
{
    assert forall|page: Seq<char>, sect: Seq<char>| #[trigger]
        stands_in(s.take(n + 1), page, sect) implies reports(gs, page) by {
        lemma_stands_in_step(s, n, page, sect);
        assert(stands_in(s.take(n), page, sect));
    }
    assert forall|i: int| 0 <= i < gs.len() implies group_of(s.take(n + 1), #[trigger] gs[i]) by {
        assert(group_of(s.take(n), gs[i]));
        assert forall|sect: Seq<char>| #[trigger]
            gs[i].sects.contains(sect) <==> stands_in(s.take(n + 1), gs[i].page, sect) by {
            lemma_stands_in_step(s, n, gs[i].page, sect);
            assert(gs[i].sects.contains(sect) <==> stands_in(s.take(n), gs[i].page, sect));
        }
    }
}

/// A record of the family whose page has an entry adds its section to the
/// entry.
proof fn lemma_index_grows(
    s: Seq<RecordView>,
    n: int,
    gs: Seq<PageConflictView>,
    k: int,
    sects: Seq<Seq<char>>,
)
    requires
        0 <= n < s.len(),
        in_family(s[n].sect),
        index_of_pages(s.take(n), gs),
        0 <= k < gs.len(),
        gs[k].page == s[n].page,
        ascending(sects),
        forall|y: Seq<char>| #[trigger]
            sects.contains(y) <==> gs[k].sects.contains(y) || y == s[n].sect,
    ensures
        index_of_pages(
            s.take(n + 1),
            gs.update(k, PageConflictView { page: gs[k].page, sects }),
        ),
{
    let next = gs.update(k, PageConflictView { page: gs[k].page, sects });
    let r = s[n];
    assert forall|i: int, j: int| 0 <= i < j < next.len() implies less(
        #[trigger] next[i].page,
        #[trigger] next[j].page,
    ) by {
        assert(less(gs[i].page, gs[j].page));
    }
    assert forall|i: int| 0 <= i < next.len() implies group_of(s.take(n + 1), #[trigger] next[i]) by {
        assert(group_of(s.take(n), gs[i]));
        if i == k {
            assert(sects.contains(r.sect));
            assert forall|sect: Seq<char>| #[trigger]
                sects.contains(sect) <==> stands_in(s.take(n + 1), r.page, sect) by {
                lemma_stands_in_step(s, n, r.page, sect);
                assert(gs[k].sects.contains(sect) <==> stands_in(s.take(n), r.page, sect));
            }
        } else {
            if i < k {
                assert(less(gs[i].page, gs[k].page));
                lemma_less_distinct(gs[i].page, gs[k].page);
            } else {
                assert(less(gs[k].page, gs[i].page));
                lemma_less_distinct(gs[k].page, gs[i].page);
            }
            assert forall|sect: Seq<char>| #[trigger]
                gs[i].sects.contains(sect) <==> stands_in(s.take(n + 1), gs[i].page, sect) by {
                lemma_stands_in_step(s, n, gs[i].page, sect);
                assert(gs[i].sects.contains(sect) <==> stands_in(s.take(n), gs[i].page, sect));
            }
        }
    }
    assert forall|page: Seq<char>, sect: Seq<char>| #[trigger]
        stands_in(s.take(n + 1), page, sect) implies reports(next, page) by {
        lemma_stands_in_step(s, n, page, sect);
        if stands_in(s.take(n), page, sect) {
            assert(reports(gs, page));
            let i = choose|i: int| 0 <= i < gs.len() && #[trigger] gs[i].page == page;
            assert(next[i].page == page);
        } else {
            assert(next[k].page == page);
        }
    }
}

/// A record of the family whose page has no entry gets one, in the place
/// where its page belongs.
proof fn lemma_index_gains(s: Seq<RecordView>, n: int, gs: Seq<PageConflictView>, k: int)
    requires
        0 <= n < s.len(),
        in_family(s[n].sect),
        index_of_pages(s.take(n), gs),
        0 <= k <= gs.len(),
        forall|j: int| 0 <= j < k ==> less(#[trigger] gs[j].page, s[n].page),
        k < gs.len() ==> less(s[n].page, gs[k].page),
    ensures
        index_of_pages(
            s.take(n + 1),
            gs.insert(k, PageConflictView { page: s[n].page, sects: seq![s[n].sect] }),
        ),
{
    let r = s[n];
    let fresh = PageConflictView { page: r.page, sects: seq![r.sect] };
    let next = gs.insert(k, fresh);
    assert forall|j: int| k <= j < gs.len() implies less(r.page, #[trigger] gs[j].page) by {
        if j > k {
            assert(less(gs[k].page, gs[j].page));
            lemma_less_transitive(r.page, gs[k].page, gs[j].page);
        }
    }
    assert forall|j: int| 0 <= j < gs.len() implies #[trigger] gs[j].page != r.page by {
        if j < k {
            lemma_less_distinct(gs[j].page, r.page);
        } else {
            lemma_less_distinct(r.page, gs[j].page);
        }
    }
    assert forall|i: int, j: int| 0 <= i < j < next.len() implies less(
        #[trigger] next[i].page,
        #[trigger] next[j].page,
    ) by {
        if j < k {
            assert(less(gs[i].page, gs[j].page));
        } else if j == k {
            assert(less(gs[i].page, r.page));
        } else if i < k {
            assert(less(gs[i].page, gs[j - 1].page));
        } else if i == k {
            assert(less(r.page, gs[j - 1].page));
        } else {
            assert(less(gs[i - 1].page, gs[j - 1].page));
        }
    }
    assert(!reports(gs, r.page));
    assert forall|i: int| 0 <= i < next.len() implies group_of(s.take(n + 1), #[trigger] next[i]) by {
        if i == k {
            assert(fresh.sects[0] == r.sect);
            assert forall|sect: Seq<char>| #[trigger]
                fresh.sects.contains(sect) <==> stands_in(s.take(n + 1), r.page, sect) by {
                lemma_stands_in_step(s, n, r.page, sect);
                if stands_in(s.take(n), r.page, sect) {
                    assert(reports(gs, r.page));
                }
            }
        } else {
            let g = next[i];
            let m = if i < k {
                i
            } else {
                i - 1
            };
            assert(g == gs[m]);
            assert(group_of(s.take(n), gs[m]));
            assert(gs[m].page != r.page);
            assert forall|sect: Seq<char>| #[trigger]
                g.sects.contains(sect) <==> stands_in(s.take(n + 1), g.page, sect) by {
                lemma_stands_in_step(s, n, g.page, sect);
                assert(g.sects.contains(sect) <==> stands_in(s.take(n), g.page, sect));
            }
        }
    }
    assert forall|page: Seq<char>, sect: Seq<char>| #[trigger]
        stands_in(s.take(n + 1), page, sect) implies reports(next, page) by {
        lemma_stands_in_step(s, n, page, sect);
        if stands_in(s.take(n), page, sect) {
            assert(reports(gs, page));
            let i = choose|i: int| 0 <= i < gs.len() && #[trigger] gs[i].page == page;
            if i < k {
                assert(next[i].page == page);
            } else {
                assert(next[i + 1].page == page);
            }
        } else {
            assert(next[k].page == page);
        }
    }
}

/// An entry with a single section is not the entry of a shared page, and
/// one with two sections is.
proof fn lemma_group_shared(s: Seq<RecordView>, g: PageConflictView)
    requires
        group_of(s, g),
    ensures
        g.sects.len() >= 2 <==> shared(s, g.page),
{
    if g.sects.len() >= 2 {
        let a = g.sects[0];
        let b = g.sects[1];
        assert(less(a, b));
        lemma_less_distinct(a, b);
        assert(g.sects.contains(a));
        assert(g.sects.contains(b));
        assert(stands_in(s, g.page, a) && stands_in(s, g.page, b));
    }
    if shared(s, g.page) {
        let (a, b) = choose|a: Seq<char>, b: Seq<char>|
            a != b && #[trigger] stands_in(s, g.page, a) && #[trigger] stands_in(s, g.page, b);
        assert(g.sects.contains(a));
        assert(g.sects.contains(b));
        let i = choose|i: int| 0 <= i < g.sects.len() && g.sects[i] == a;
        let j = choose|j: int| 0 <= j < g.sects.len() && g.sects[j] == b;
        assert(i != j);
    }
}

impl Database {
    /// The pages that stand in two or more sections of the family, in
    /// ascending order, each with the sections of the family that it
    /// stands in, in ascending order and each once.
    pub fn conflicts(&self) -> (out: Vec<PageConflict>)
        ensures
            pages_ascend(conflict_views(out@)),
            forall|i: int|
                0 <= i < out@.len() ==> {
                    let c = #[trigger] conflict_views(out@)[i];
                    c.sects.len() >= 2 && describes(self@, c.page, c.sects)
                },
            forall|page: Seq<char>| #[trigger]
                reports(conflict_views(out@), page) <==> shared(self@, page),
    {
        let mut groups: Vec<PageConflict> = Vec::new();
        let mut n: usize = 0;
        proof {
            let none = self@.take(0);
            assert forall|page: Seq<char>, sect: Seq<char>| #[trigger]
                stands_in(none, page, sect) implies reports(conflict_views(groups@), page) by {
                assert(none.len() == 0);
            }
        }
        while n < self.records.len()
            invariant
                n <= self.records.len(),
                index_of_pages(self@.take(n as int), conflict_views(groups@)),
            decreases self.records.len() - n,
        {
            let r = &self.records[n];
            let ghost gs = conflict_views(groups@);
            assert(self@[n as int] == r@);
            if is_family(r.sect.as_str()) {
                let mut k: usize = 0;
                while k < groups.len() && compare_str(groups[k].page.as_str(), r.page.as_str())
                    == Order::Less
                    invariant
                        k <= groups.len(),
                        gs == conflict_views(groups@),
                        forall|j: int| 0 <= j < k ==> less(#[trigger] gs[j].page, r.page@),
                    decreases groups.len() - k,
                {
                    assert(gs[k as int].page == groups@[k as int].page@);
                    k += 1;
                }
                proof {
                    if k < groups.len() {
                        assert(gs[k as int].page == groups@[k as int].page@);
                        lemma_compare_equal(gs[k as int].page, r.page@);
                        lemma_compare_flip(gs[k as int].page, r.page@);
                    }
                }
                if k < groups.len() && compare_str(groups[k].page.as_str(), r.page.as_str())
                    == Order::Equal {
                    let mut g = groups.remove(k);
                    assert(g@ == gs[k as int]);
                    assert(group_of(self@.take(n as int), gs[k as int]));
                    add_section(&mut g.sects, r.sect.as_str());
                    proof {
                        lemma_index_grows(
                            self@,
                            n as int,
                            gs,
                            k as int,
                            string_views(g.sects@),
                        );
                    }
                    groups.insert(k, g);
                    assert(conflict_views(groups@) =~= gs.update(
                        k as int,
                        PageConflictView { page: gs[k as int].page, sects: string_views(g.sects@) },
                    ));
                } else {
                    let mut sects: Vec<String> = Vec::new();
                    sects.push(r.sect.clone());
                    let g = PageConflict { page: r.page.clone(), sects };
                    proof {
                        assert(string_views(g.sects@) =~= seq![r.sect@]);
                        lemma_index_gains(self@, n as int, gs, k as int);
                    }
                    groups.insert(k, g);
                    assert(conflict_views(groups@) =~= gs.insert(
                        k as int,
                        PageConflictView { page: r.page@, sects: seq![r.sect@] },
                    ));
                }
            } else {
                proof {
                    lemma_index_skips(self@, n as int, gs);
                }
            }
            n += 1;
        }
        assert(self@.take(self.records.len() as int) =~= self@);
        let mut i: usize = 0;
        while i < groups.len()
            invariant
                i <= groups.len(),
                pages_ascend(conflict_views(groups@)),
                forall|j: int|
                    0 <= j < groups@.len() ==> group_of(
                        self@,
                        #[trigger] conflict_views(groups@)[j],
                    ),
                forall|j: int|
                    0 <= j < i ==> (#[trigger] conflict_views(groups@)[j]).sects.len() >= 2,
                forall|page: Seq<char>| #[trigger]
                    shared(self@, page) ==> reports(conflict_views(groups@), page),
            decreases groups.len() - i,
        {
            let ghost gs = conflict_views(groups@);
            assert(gs[i as int].sects.len() == groups@[i as int].sects@.len());
            if groups[i].sects.len() < 2 {
                groups.remove(i);
                proof {
                    let next = conflict_views(groups@);
                    assert(next =~= gs.remove(i as int));
                    assert forall|a: int, b: int| 0 <= a < b < next.len() implies less(
                        #[trigger] next[a].page,
                        #[trigger] next[b].page,
                    ) by {
                        let a0 = if a < i { a } else { a + 1 };
                        let b0 = if b < i { b } else { b + 1 };
                        assert(less(gs[a0].page, gs[b0].page));
                    }
                    assert forall|j: int| 0 <= j < next.len() implies group_of(
                        self@,
                        #[trigger] next[j],
                    ) by {
                        let j0 = if j < i { j } else { j + 1 };
                        assert(group_of(self@, gs[j0]));
                    }
                    assert forall|page: Seq<char>| #[trigger] shared(self@, page) implies reports(
                        next,
                        page,
                    ) by {
                        assert(reports(gs, page));
                        let m = choose|m: int| 0 <= m < gs.len() && #[trigger] gs[m].page == page;
                        assert(group_of(self@, gs[m]));
                        lemma_group_shared(self@, gs[m]);
                        if m < i {
                            assert(next[m].page == page);
                        } else {
                            assert(m > i);
                            assert(next[m - 1].page == page);
                        }
                    }
                }
            } else {
                i += 1;
            }
        }
        proof {
            let gs = conflict_views(groups@);
            assert forall|page: Seq<char>| #[trigger] reports(gs, page) implies shared(
                self@,
                page,
            ) by {
                let m = choose|m: int| 0 <= m < gs.len() && #[trigger] gs[m].page == page;
                assert(group_of(self@, gs[m]));
                lemma_group_shared(self@, gs[m]);
            }
        }
        groups
    }
}

} // verus!
