//! The order in which texts and rows are put: texts by code point, rows by a list of texts, and
//! rows that compare equal in the order in which they arrived.
use vstd::prelude::*;
use vstd::std_specs::iter::IteratorSpec;

verus! {

/// The outcome of a comparison.
#[derive(Debug, Clone, Copy, PartialEq, Eq, Structural)]
pub enum Order {
    Less,
    Equal,
    Greater,
}

/// Whether `a` comes before `b` in the lexicographic order by code point.
pub open spec fn text_lt(a: Seq<char>, b: Seq<char>) -> bool
    decreases a.len(),
{
    if b.len() == 0 {
        false
    } else if a.len() == 0 {
        true
    } else if a[0] != b[0] {
        a[0] < b[0]
    } else {
        text_lt(a.drop_first(), b.drop_first())
    }
}

/// Whether `a` comes before `b` in the lexicographic order that compares texts with `text_lt`.
pub open spec fn key_lt(a: Seq<Seq<char>>, b: Seq<Seq<char>>) -> bool
    decreases a.len(),
{
    if b.len() == 0 {
        false
    } else if a.len() == 0 {
        true
    } else if a[0] != b[0] {
        text_lt(a[0], b[0])
    } else {
        key_lt(a.drop_first(), b.drop_first())
    }
}

/// No text comes before itself.
pub proof fn text_lt_irreflexive(a: Seq<char>)
    ensures
        !text_lt(a, a),
    decreases a.len(),
{
    if a.len() > 0 {
        text_lt_irreflexive(a.drop_first());
    }
}

/// The order of texts is transitive.
pub proof fn text_lt_transitive(a: Seq<char>, b: Seq<char>, c: Seq<char>)
    requires
        text_lt(a, b),
        text_lt(b, c),
    ensures
        text_lt(a, c),
    decreases a.len(),
{
    if a.len() > 0 && a[0] == b[0] && b[0] == c[0] {
        text_lt_transitive(a.drop_first(), b.drop_first(), c.drop_first());
    }
}

/// Of two different texts one comes before the other.
pub proof fn text_lt_total(a: Seq<char>, b: Seq<char>)
    ensures
        text_lt(a, b) || a == b || text_lt(b, a),
    decreases a.len(),
{
    if a.len() == 0 || b.len() == 0 {
        assert(a.len() == 0 && b.len() == 0 ==> a =~= b);
    } else if a[0] == b[0] {
        text_lt_total(a.drop_first(), b.drop_first());
        if a.drop_first() == b.drop_first() {
            assert(a =~= seq![a[0]] + a.drop_first());
            assert(b =~= seq![b[0]] + b.drop_first());
        }
    }
}

/// No key comes before itself.
pub proof fn key_lt_irreflexive(a: Seq<Seq<char>>)
    ensures
        !key_lt(a, a),
    decreases a.len(),
{
    if a.len() > 0 {
        key_lt_irreflexive(a.drop_first());
    }
}

/// The order of keys is transitive.
pub proof fn key_lt_transitive(a: Seq<Seq<char>>, b: Seq<Seq<char>>, c: Seq<Seq<char>>)
    requires
        key_lt(a, b),
        key_lt(b, c),
    ensures
        key_lt(a, c),
    decreases a.len(),
{
    if a.len() > 0 {
        if a[0] == b[0] && b[0] == c[0] {
            key_lt_transitive(a.drop_first(), b.drop_first(), c.drop_first());
        } else if a[0] != b[0] && b[0] != c[0] {
            text_lt_transitive(a[0], b[0], c[0]);
            text_lt_irreflexive(a[0]);
        }
    }
}

/// Of two different keys one comes before the other.
pub proof fn key_lt_total(a: Seq<Seq<char>>, b: Seq<Seq<char>>)
    ensures
        key_lt(a, b) || a == b || key_lt(b, a),
    decreases a.len(),
{
    if a.len() == 0 || b.len() == 0 {
        assert(a.len() == 0 && b.len() == 0 ==> a =~= b);
    } else if a[0] == b[0] {
        key_lt_total(a.drop_first(), b.drop_first());
        if a.drop_first() == b.drop_first() {
            assert(a =~= seq![a[0]] + a.drop_first());
            assert(b =~= seq![b[0]] + b.drop_first());
        }
    } else {
        text_lt_total(a[0], b[0]);
    }
}

/// What a comparison of `a` with `b` answers.
pub open spec fn text_order(a: Seq<char>, b: Seq<char>) -> Order {
    if a == b {
        Order::Equal
    } else if text_lt(a, b) {
        Order::Less
    } else {
        Order::Greater
    }
}

/// Compares two texts by code point.
pub fn compare_text(a: &str, b: &str) -> (order: Order)
    ensures
        order == text_order(a@, b@),
{
    let mut left = a.chars();
    let mut right = b.chars();
    let ghost mut n: int = 0;
    loop
        invariant
            0 <= n <= a@.len(),
            n <= b@.len(),
            left.remaining() == a@.skip(n),
            right.remaining() == b@.skip(n),
            left.obeys_prophetic_iter_laws(),
            right.obeys_prophetic_iter_laws(),
            a@.take(n) == b@.take(n),
            text_lt(a@, b@) == text_lt(a@.skip(n), b@.skip(n)),
        decreases a@.len() - n,
    {
        match (left.next(), right.next()) {
            (None, None) => {
                assert(a@ =~= a@.take(n) && b@ =~= b@.take(n));
                return Order::Equal;
            },
            (None, Some(_)) => {
                return Order::Less;
            },
            (Some(_), None) => {
                return Order::Greater;
            },
            (Some(x), Some(y)) => {
                if x != y {
                    if x < y {
                        return Order::Less;
                    }
                    return Order::Greater;
                }
                proof {
                    assert(a@.skip(n).drop_first() =~= a@.skip(n + 1));
                    assert(b@.skip(n).drop_first() =~= b@.skip(n + 1));
                    assert(a@.take(n + 1) =~= a@.take(n).push(a@[n]));
                    assert(b@.take(n + 1) =~= b@.take(n).push(b@[n]));
                    n = n + 1;
                }
            },
        }
    }
}

/// Whether two texts are the same.
pub fn same_text(a: &str, b: &str) -> (same: bool)
    ensures
        same == (a@ == b@),
{
    match compare_text(a, b) {
        Order::Equal => true,
        _ => false,
    }
}

/// Whether `a` and `b` agree before position `k`, where `a` has ended or has the smaller character.
pub open spec fn differs_at(a: Seq<char>, b: Seq<char>, k: int) -> bool {
    &&& 0 <= k <= a.len()
    &&& k < b.len()
    &&& a.take(k) == b.take(k)
    &&& k == a.len() || a[k] < b[k]
}

/// Texts are ordered like words in a dictionary, by code point: one comes before another exactly if
/// it is a proper beginning of it, or has the smaller character where they first differ.
pub proof fn text_lt_is_lexicographic(a: Seq<char>, b: Seq<char>)
    ensures
        text_lt(a, b) <==> exists|k: int| #[trigger] differs_at(a, b, k),
    decreases a.len(),
{
    if a.len() > 0 && b.len() > 0 && a[0] == b[0] {
        let x = a.drop_first();
        let y = b.drop_first();
        text_lt_is_lexicographic(x, y);
        if text_lt(a, b) {
            let k = choose|k: int| #[trigger] differs_at(x, y, k);
            assert(a.take(k + 1) =~= seq![a[0]] + x.take(k));
            assert(b.take(k + 1) =~= seq![b[0]] + y.take(k));
            assert(differs_at(a, b, k + 1));
        }
        if exists|k: int| #[trigger] differs_at(a, b, k) {
            let k = choose|k: int| #[trigger] differs_at(a, b, k);
            assert(x.take(k - 1) =~= a.take(k).drop_first());
            assert(y.take(k - 1) =~= b.take(k).drop_first());
            assert(differs_at(x, y, k - 1));
        }
    } else {
        if text_lt(a, b) {
            assert(a.take(0) =~= b.take(0));
            assert(differs_at(a, b, 0));
        }
        if exists|k: int| #[trigger] differs_at(a, b, k) {
            let k = choose|k: int| #[trigger] differs_at(a, b, k);
            if k > 0 {
                assert(a.take(k)[0] == b.take(k)[0]);
            }
        }
    }
}

/// Rows are ordered by their first texts, those with equal first texts by the second ones, and so
/// on.
pub proof fn key_lt_goes_text_by_text(
    a: (Seq<char>, Seq<char>, Seq<char>),
    b: (Seq<char>, Seq<char>, Seq<char>),
)
    ensures
        key_lt(seq![a.0, a.1, a.2], seq![b.0, b.1, b.2]) <==> text_lt(a.0, b.0) || (a.0 == b.0
            && text_lt(a.1, b.1)) || (a.0 == b.0 && a.1 == b.1 && text_lt(a.2, b.2)),
{
    reveal_with_fuel(key_lt, 4);
    let x = seq![a.0, a.1, a.2];
    let y = seq![b.0, b.1, b.2];
    assert(x.drop_first() =~= seq![a.1, a.2]);
    assert(y.drop_first() =~= seq![b.1, b.2]);
    assert(x.drop_first().drop_first() =~= seq![a.2]);
    assert(y.drop_first().drop_first() =~= seq![b.2]);
    text_lt_irreflexive(a.0);
    text_lt_irreflexive(a.1);
    text_lt_irreflexive(a.2);
}

} // verus!
