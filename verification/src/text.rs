//! Byte-level scanning: the two bytes that structure the input, and where
//! they first and last occur in a sequence.

use vstd::prelude::*;

verus! {

/// The byte that ends a line.
pub const TERMINATOR: u8 = 10;

/// The byte that parts a key from its value.
pub const SEPARATOR: u8 = 59;

/// Whether `b` occurs in `s`.
pub open spec fn occurs(s: Seq<u8>, b: u8) -> bool {
    exists|i: int| 0 <= i < s.len() && s[i] == b
}

/// The index of the first `b` in `s`, or `s.len()` when `b` does not occur.
pub open spec fn first_index(s: Seq<u8>, b: u8) -> int
    decreases s.len(),
{
    if s.len() == 0 {
        0
    } else if s[0] == b {
        0
    } else {
        1 + first_index(s.skip(1), b)
    }
}

/// The length of the longest prefix of `s` that ends in `b`, or 0 when `b`
/// does not occur.
pub open spec fn last_end(s: Seq<u8>, b: u8) -> int
    decreases s.len(),
{
    if s.len() == 0 {
        0
    } else if s.last() == b {
        s.len() as int
    } else {
        last_end(s.drop_last(), b)
    }
}

/// `first_index` is within bounds, points at `b` when it is inside `s`, and
/// nothing before it is `b`.
pub proof fn lemma_first_index(s: Seq<u8>, b: u8)
    ensures
        0 <= first_index(s, b) <= s.len(),
        first_index(s, b) < s.len() ==> s[first_index(s, b)] == b,
        forall|i: int| 0 <= i < first_index(s, b) ==> s[i] != b,
        first_index(s, b) < s.len() <==> occurs(s, b),
    decreases s.len(),
{
    if s.len() == 0 {
    } else if s[0] == b {
        assert(occurs(s, b));
    } else {
        let t = s.skip(1);
        lemma_first_index(t, b);
        let f = first_index(t, b);
        assert forall|i: int| 0 <= i < 1 + f implies s[i] != b by {
            if i > 0 {
                assert(t[i - 1] == s[i]);
            }
        }
        if f < t.len() {
            assert(t[f] == s[f + 1]);
            assert(occurs(s, b));
        }
        if occurs(s, b) {
            let i = choose|i: int| 0 <= i < s.len() && s[i] == b;
            assert(t[i - 1] == s[i]);
            assert(occurs(t, b));
        }
    }
}

/// Any index that points at the first `b`, or at the end of an `s` without
/// `b`, is `first_index`.
pub proof fn lemma_first_index_unique(s: Seq<u8>, b: u8, p: int)
    requires
        0 <= p <= s.len(),
        forall|i: int| 0 <= i < p ==> s[i] != b,
        p < s.len() ==> s[p] == b,
    ensures
        first_index(s, b) == p,
{
    lemma_first_index(s, b);
    let f = first_index(s, b);
    if f < p {
        assert(s[f] != b);
    } else if p < f {
        assert(s[p] != b);
    }
}

/// `last_end` is within bounds, follows a `b` when it is positive, and nothing
/// from it onward is `b`.
pub proof fn lemma_last_end(s: Seq<u8>, b: u8)
    ensures
        0 <= last_end(s, b) <= s.len(),
        last_end(s, b) > 0 ==> s[last_end(s, b) - 1] == b,
        forall|i: int| last_end(s, b) <= i < s.len() ==> s[i] != b,
        last_end(s, b) > 0 <==> occurs(s, b),
    decreases s.len(),
{
    if s.len() == 0 {
    } else if s.last() == b {
        assert(s[s.len() - 1] == b);
        assert(occurs(s, b));
    } else {
        let t = s.drop_last();
        lemma_last_end(t, b);
        let e = last_end(t, b);
        assert forall|i: int| e <= i < s.len() implies s[i] != b by {
            if i < t.len() {
                assert(t[i] == s[i]);
            }
        }
        if e > 0 {
            assert(t[e - 1] == s[e - 1]);
            assert(occurs(s, b));
        }
        if occurs(s, b) {
            let i = choose|i: int| 0 <= i < s.len() && s[i] == b;
            assert(t[i] == s[i]);
            assert(occurs(t, b));
        }
    }
}

/// Any length that ends just after the last `b`, or is 0 for an `s` without
/// `b`, is `last_end`.
pub proof fn lemma_last_end_unique(s: Seq<u8>, b: u8, p: int)
    requires
        0 <= p <= s.len(),
        forall|i: int| p <= i < s.len() ==> s[i] != b,
        p > 0 ==> s[p - 1] == b,
    ensures
        last_end(s, b) == p,
{
    lemma_last_end(s, b);
    let e = last_end(s, b);
    if e < p {
        assert(s[p - 1] != b);
    } else if p < e {
        assert(s[e - 1] != b);
    }
}

/// Finds the first `b` in `s[from..]`: the result is `from` plus
/// `first_index` of that suffix.
pub fn find_first(s: &[u8], from: usize, b: u8) -> (at: usize)
    requires
        from <= s.len(),
    ensures
        at as int == from + first_index(s@.skip(from as int), b),
        from <= at <= s.len(),
{
    let mut i: usize = from;
    while i < s.len() && s[i] != b
        invariant
            from <= i <= s.len(),
            forall|j: int| from <= j < i ==> s@[j] != b,
        decreases s.len() - i,
    {
        i += 1;
    }
    proof {
        let t = s@.skip(from as int);
        assert forall|j: int| 0 <= j < i - from implies t[j] != b by {
            assert(t[j] == s@[from + j]);
        }
        lemma_first_index_unique(t, b, i - from);
    }
    i
}

/// Finds the end of the longest prefix of `s` that ends in `b`.
pub fn find_last_end(s: &[u8], b: u8) -> (end: usize)
    ensures
        end as int == last_end(s@, b),
        end <= s.len(),
{
    let mut i: usize = s.len();
    while i > 0 && s[i - 1] != b
        invariant
            i <= s.len(),
            forall|j: int| i <= j < s.len() ==> s@[j] != b,
        decreases i,
    {
        i -= 1;
    }
    proof {
        lemma_last_end_unique(s@, b, i as int);
    }
    i
}

} // verus!
