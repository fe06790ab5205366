//! The work of fetching what each package installs: the groups of packages
//! still to be listed, and the batch that the listing of one group yields.
//!
//! Listing a package is the caller's part, and so is the running of
//! workers. A worker takes one group at a time with `take` until none is
//! left, lists its packages and hands `batch` what it got.

use vstd::prelude::*;

verus! {

/// The identity of a package: its name, and its version where it has one.
#[derive(Clone, Debug, PartialEq, Eq)]
pub struct Package {
    pub name: String,
    pub version: Option<String>,
}

/// One thing that a package installs.
#[derive(Clone, Debug, PartialEq, Eq)]
pub enum Action {
    /// A file at `path`.
    File { path: String },
    /// A link at `path` to `target`.
    Link { path: String, target: String },
    /// Anything else.
    Other,
}

/// A package to list, and the repository that holds it.
#[derive(Clone, Debug, PartialEq, Eq)]
pub struct PkgContentsWorkItem {
    pub repo: String,
    pub pkg: Package,
}

/// Packages that are listed together and give one batch.
#[derive(Clone, Debug, PartialEq, Eq)]
pub struct PkgContentsWorkGroup {
    pub group: Vec<PkgContentsWorkItem>,
}

/// The groups that wait to be listed. The group appended last is taken
/// first.
#[derive(Debug)]
pub struct PkgContents {
    pub q: Vec<PkgContentsWorkGroup>,
}

/// What one package installs.
#[derive(Clone, Debug, PartialEq, Eq)]
pub struct PkgContentsResult {
    pub repo: String,
    pub pkg: Package,
    pub contents: Vec<Action>,
}

/// What `n` takes hand out of the groups `q`, in the order of the takes:
/// the last group first, and nothing once none is left.
pub open spec fn handed_out<T>(q: Seq<T>, n: nat) -> Seq<Option<T>>
    decreases n,
{
    if n == 0 {
        Seq::empty()
    } else if q.len() == 0 {
        seq![None] + handed_out(q, (n - 1) as nat)
    } else {
        seq![Some(q.last())] + handed_out(q.drop_last(), (n - 1) as nat)
    }
}

/// The groups among what was handed out, in order.
pub open spec fn groups_of<T>(h: Seq<Option<T>>) -> Seq<T> {
    h.filter(|o: Option<T>| o is Some).map_values(|o: Option<T>| o->0)
}

/// However many takes are made of `k` groups, as long as they are at least
/// `k`: the first `k` takes hand out the groups, each of them once, and
/// every later take finds nothing.
pub proof fn lemma_each_group_once<T>(q: Seq<T>, n: nat)
    requires
        n >= q.len(),
    ensures
        handed_out(q, n).len() == n,
        groups_of(handed_out(q, n)) == q.reverse(),
        groups_of(handed_out(q, n)).to_multiset() == q.to_multiset(),
        forall|i: int| 0 <= i < q.len() ==> handed_out(q, n)[i] == Some(q[q.len() - 1 - i]),
        forall|i: int| q.len() <= i < n ==> handed_out(q, n)[i] is None,
    decreases n,
{
    let is_some = |o: Option<T>| o is Some;
    let get = |o: Option<T>| o->0;
    assert(Seq::<Option<T>>::empty().filter(is_some) =~= Seq::empty()) by {
        reveal(Seq::filter);
    }
    if n == 0 {
        assert(groups_of(handed_out(q, n)) =~= q.reverse());
    } else {
        let m = (n - 1) as nat;
        if q.len() == 0 {
            lemma_each_group_once(q, m);
            let head = Seq::<Option<T>>::empty().push(None);
            assert(head =~= seq![None]);
            Seq::lemma_filter_push(Seq::<Option<T>>::empty(), None, is_some);
            Seq::filter_distributes_over_add(head, handed_out(q, m), is_some);
            assert(groups_of(handed_out(q, n)) =~= q.reverse());
        } else {
            let rest = q.drop_last();
            lemma_each_group_once(rest, m);
            let head = Seq::<Option<T>>::empty().push(Some(q.last()));
            assert(head =~= seq![Some(q.last())]);
            Seq::lemma_filter_push(Seq::<Option<T>>::empty(), Some(q.last()), is_some);
            Seq::filter_distributes_over_add(head, handed_out(rest, m), is_some);
            assert(groups_of(handed_out(q, n)) =~= seq![q.last()] + rest.reverse());
            assert(seq![q.last()] + rest.reverse() =~= q.reverse());
            assert forall|i: int| 0 <= i < q.len() implies handed_out(q, n)[i] == Some(
                q[q.len() - 1 - i],
            ) by {
                if i > 0 {
                    assert(handed_out(q, n)[i] == handed_out(rest, m)[i - 1]);
                }
            }
            assert forall|i: int| q.len() <= i < n implies handed_out(q, n)[i] is None by {
                assert(handed_out(q, n)[i] == handed_out(rest, m)[i - 1]);
            }
        }
    }
    q.lemma_reverse_to_multiset();
}

impl PkgContents {
    /// No group waits.
    pub fn new() -> (w: PkgContents)
        ensures
            w.q@ == Seq::<PkgContentsWorkGroup>::empty(),
    {
        PkgContents { q: Vec::new() }
    }

    /// Adds a group, which is then the next to be taken.
    pub fn append(&mut self, group: Vec<PkgContentsWorkItem>)
        ensures
            final(self).q@ == old(self).q@.push(PkgContentsWorkGroup { group }),
    {
        self.q.push(PkgContentsWorkGroup { group });
    }

    /// Takes the next group, if one waits: each take is the first of the
    /// takes that `handed_out` describes.
    pub fn take(&mut self) -> (next: Option<PkgContentsWorkGroup>)
        ensures
            seq![next] == handed_out(old(self).q@, 1),
            match next {
                Some(g) => old(self).q@.len() > 0 && g == old(self).q@.last() && final(self).q@
                    == old(self).q@.drop_last(),
                None => old(self).q@.len() == 0 && final(self).q@ == old(self).q@,
            },
    {
        let next = self.q.pop();
        proof {
            let q = old(self).q@;
            assert(handed_out(q, 0) =~= Seq::<Option<PkgContentsWorkGroup>>::empty());
            assert(handed_out(q.drop_last(), 0) =~= Seq::<Option<PkgContentsWorkGroup>>::empty());
            assert(seq![next] =~= handed_out(q, 1));
        }
        next
    }
}

/// The result for the package `item` with the listing `contents`.
pub open spec fn result_of(item: PkgContentsWorkItem, contents: Vec<Action>) -> PkgContentsResult {
    PkgContentsResult { repo: item.repo, pkg: item.pkg, contents }
}

/// The batch of a group: the listing of each of its packages, joined to the
/// package, in the order of the group. `None` unless there is one listing
/// for each package.
pub fn batch(group: PkgContentsWorkGroup, listings: Vec<Vec<Action>>) -> (out: Option<
    Vec<PkgContentsResult>,
>)
    ensures
        out is Some <==> listings@.len() == group.group@.len(),
        out matches Some(b) ==> b@ == Seq::new(
            group.group@.len(),
            |i: int| result_of(group.group@[i], listings@[i]),
        ),
{
    if listings.len() != group.group.len() {
        return None;
    }
    let ghost items = group.group@;
    let ghost lists = listings@;
    let mut items_left = group.group;
    let mut lists_left = listings;
    let mut rev: Vec<PkgContentsResult> = Vec::new();
    while items_left.len() > 0
        invariant
            items_left@.len() == lists_left@.len(),
            items_left@ == items.take(items_left@.len() as int),
            lists_left@ == lists.take(items_left@.len() as int),
            items.len() == lists.len(),
            rev@.len() + items_left@.len() == items.len(),
            forall|k: int|
                0 <= k < rev@.len() ==> #[trigger] rev@[k] == result_of(
                    items[items.len() - 1 - k],
                    lists[items.len() - 1 - k],
                ),
        decreases items_left.len(),
    {
        let item = items_left.pop().unwrap();
        let contents = lists_left.pop().unwrap();
        rev.push(PkgContentsResult { repo: item.repo, pkg: item.pkg, contents });
    }
    let mut out: Vec<PkgContentsResult> = Vec::new();
    while rev.len() > 0
        invariant
            items.len() == lists.len(),
            out@.len() + rev@.len() == items.len(),
            forall|k: int|
                0 <= k < rev@.len() ==> #[trigger] rev@[k] == result_of(
                    items[items.len() - 1 - k],
                    lists[items.len() - 1 - k],
                ),
            forall|k: int| 0 <= k < out@.len() ==> #[trigger] out@[k] == result_of(items[k], lists[k]),
        decreases rev.len(),
    {
        let r = rev.pop().unwrap();
        out.push(r);
    }
    assert(out@ =~= Seq::new(items.len(), |i: int| result_of(items[i], lists[i])));
    Some(out)
}

} // verus!
