//! The order of keys: byte by byte, a proper prefix before what extends it.

use vstd::prelude::*;

verus! {

/// Whether `a` and `b` are both at least `n` long and agree on their first
/// `n` bytes.
pub open spec fn agree_to(a: Seq<u8>, b: Seq<u8>, n: int) -> bool {
    &&& 0 <= n <= a.len()
    &&& n <= b.len()
    &&& forall|i: int| 0 <= i < n ==> a[i] == b[i]
}

/// Whether `a` and `b` part ways at `n` in favour of `a`: they agree before
/// `n`, and there `a` ends while `b` goes on, or `a` has the smaller byte.
pub open spec fn parts_at(a: Seq<u8>, b: Seq<u8>, n: int) -> bool {
    &&& agree_to(a, b, n)
    &&& n < b.len()
    &&& n < a.len() ==> a[n] < b[n]
}

/// Whether `a` comes before `b`.
pub open spec fn key_lt(a: Seq<u8>, b: Seq<u8>) -> bool {
    exists|n: int| parts_at(a, b, n)
}

/// No key comes before itself.
pub proof fn lemma_lt_irreflexive(a: Seq<u8>)
    ensures
        !key_lt(a, a),
{
    if key_lt(a, a) {
        let n = choose|n: int| parts_at(a, a, n);
        assert(a[n] < a[n]);
    }
}

/// The order is transitive.
pub proof fn lemma_lt_transitive(a: Seq<u8>, b: Seq<u8>, c: Seq<u8>)
    requires
        key_lt(a, b),
        key_lt(b, c),
    ensures
        key_lt(a, c),
{
    let n = choose|n: int| parts_at(a, b, n);
    let m = choose|m: int| parts_at(b, c, m);
    if n <= m {
        assert(parts_at(a, c, n));
    } else {
        assert(parts_at(a, c, m));
    }
}

/// Of two different keys one comes before the other.
pub proof fn lemma_lt_total(a: Seq<u8>, b: Seq<u8>)
    ensures
        a == b || key_lt(a, b) || key_lt(b, a),
{
    let n = first_difference(a, b, 0);
    lemma_first_difference(a, b, 0);
    if n < a.len() && n < b.len() {
        if a[n] < b[n] {
            assert(parts_at(a, b, n));
        } else {
            assert(parts_at(b, a, n));
        }
    } else if n < b.len() {
        assert(parts_at(a, b, n));
    } else if n < a.len() {
        assert(parts_at(b, a, n));
    } else {
        assert(a =~= b);
    }
}

/// No two keys come before each other.
pub proof fn lemma_lt_asymmetric(a: Seq<u8>, b: Seq<u8>)
    requires
        key_lt(a, b),
    ensures
        !key_lt(b, a),
{
    if key_lt(b, a) {
        lemma_lt_transitive(a, b, a);
        lemma_lt_irreflexive(a);
    }
}

/// The first index from `from` on at which `a` and `b` differ or one of
/// them ends.
pub open spec fn first_difference(a: Seq<u8>, b: Seq<u8>, from: int) -> int
    decreases a.len() - from,
{
    if 0 <= from < a.len() && from < b.len() && a[from] == b[from] {
        first_difference(a, b, from + 1)
    } else {
        from
    }
}

/// Up to their first difference two keys agree.
pub proof fn lemma_first_difference(a: Seq<u8>, b: Seq<u8>, from: int)
    requires
        agree_to(a, b, from),
    ensures
        agree_to(a, b, first_difference(a, b, from)),
        first_difference(a, b, from) < a.len() && first_difference(a, b, from) < b.len()
            ==> a[first_difference(a, b, from)] != b[first_difference(a, b, from)],
    decreases a.len() - from,
{
    if from < a.len() && from < b.len() && a[from] == b[from] {
        lemma_first_difference(a, b, from + 1);
    }
}

/// Whether `a` comes before `b`.
pub fn key_less(a: &[u8], b: &[u8]) -> (less: bool)
    ensures
        less == key_lt(a@, b@),
{
    let mut i: usize = 0;
    while i < a.len() && i < b.len() && a[i] == b[i]
        invariant
            agree_to(a@, b@, i as int),
        decreases a.len() - i,
    {
        i += 1;
    }
    let less = if i < a.len() {
        i < b.len() && a[i] < b[i]
    } else {
        i < b.len()
    };
    proof {
        if less {
            assert(parts_at(a@, b@, i as int));
        } else if key_lt(a@, b@) {
            let n = choose|n: int| parts_at(a@, b@, n);
            if n < i {
                assert(a@[n] == b@[n]);
            } else if n > i {
                assert(a@[i as int] == b@[i as int]);
            }
        }
    }
    less
}

} // verus!
