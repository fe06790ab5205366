//! The order of strings: character by character, by code point, a proper
//! prefix before what it is a prefix of.

use vstd::prelude::*;
use vstd::std_specs::iter::IteratorSpec;

verus! {

/// How one value stands to another.
#[derive(Clone, Copy, PartialEq, Eq, Debug, Structural)]
pub enum Order {
    Less,
    Equal,
    Greater,
}

/// How `a` stands to `b`.
pub open spec fn compare(a: Seq<char>, b: Seq<char>) -> Order
    decreases a.len(),
{
    if a.len() == 0 && b.len() == 0 {
        Order::Equal
    } else if a.len() == 0 {
        Order::Less
    } else if b.len() == 0 {
        Order::Greater
    } else if (a[0] as int) < (b[0] as int) {
        Order::Less
    } else if (a[0] as int) > (b[0] as int) {
        Order::Greater
    } else {
        compare(a.drop_first(), b.drop_first())
    }
}

/// `a` stands before `b`.
pub open spec fn less(a: Seq<char>, b: Seq<char>) -> bool {
    compare(a, b) is Less
}

/// Two strings compare equal exactly when they are the same string.
pub proof fn lemma_compare_equal(a: Seq<char>, b: Seq<char>)
    ensures
        compare(a, b) is Equal <==> a == b,
    decreases a.len(),
{
    if a.len() == 0 || b.len() == 0 {
        if a.len() == 0 && b.len() == 0 {
            assert(a =~= b);
        }
    } else if a[0] == b[0] {
        lemma_compare_equal(a.drop_first(), b.drop_first());
        if a.drop_first() == b.drop_first() {
            assert(a =~= seq![a[0]] + a.drop_first());
            assert(b =~= seq![b[0]] + b.drop_first());
        }
    } else {
        assert(a[0] as int != b[0] as int);
    }
}

/// Turning the arguments round turns the answer round.
pub proof fn lemma_compare_flip(a: Seq<char>, b: Seq<char>)
    ensures
        compare(a, b) is Less <==> compare(b, a) is Greater,
        compare(a, b) is Equal <==> compare(b, a) is Equal,
    decreases a.len(),
{
    if a.len() > 0 && b.len() > 0 && a[0] as int == b[0] as int {
        lemma_compare_flip(a.drop_first(), b.drop_first());
    }
}

/// What stands before something that stands before `c` stands before `c`.
pub proof fn lemma_less_transitive(a: Seq<char>, b: Seq<char>, c: Seq<char>)
    requires
        less(a, b),
        less(b, c),
    ensures
        less(a, c),
    decreases a.len(),
{
    if a.len() > 0 && a[0] as int == b[0] as int && b[0] as int == c[0] as int {
        lemma_less_transitive(a.drop_first(), b.drop_first(), c.drop_first());
    }
}

/// Compares two strings.
pub fn compare_str(a: &str, b: &str) -> (o: Order)
    ensures
        o == compare(a@, b@),
{
    let mut ia = a.chars();
    let mut ib = b.chars();
    loop
        invariant
            ia.obeys_prophetic_iter_laws(),
            ib.obeys_prophetic_iter_laws(),
            ia.decrease() is Some,
            compare(a@, b@) == compare(ia.remaining(), ib.remaining()),
        decreases ia.decrease()->0,
    {
        let x = ia.next();
        let y = ib.next();
        match (x, y) {
            (None, None) => { return Order::Equal; },
            (None, Some(_)) => { return Order::Less; },
            (Some(_), None) => { return Order::Greater; },
            (Some(x), Some(y)) => {
                if x < y {
                    return Order::Less;
                } else if x > y {
                    return Order::Greater;
                }
            },
        }
    }
}

/// Of three strings, the first of which stands before the second, the third
/// stands after the first or before the second.
pub proof fn lemma_less_cotransitive(x: Seq<char>, a: Seq<char>, b: Seq<char>)
    requires
        less(x, a),
    ensures
        less(x, b) || less(b, a),
{
    lemma_compare_flip(x, b);
    lemma_compare_equal(x, b);
    if compare(x, b) is Greater {
        lemma_less_transitive(b, x, a);
    }
}

/// Whether two strings are the same.
pub fn same_str(a: &str, b: &str) -> (same: bool)
    ensures
        same == (a@ == b@),
{
    proof {
        lemma_compare_equal(a@, b@);
    }
    compare_str(a, b) == Order::Equal
}

} // verus!
