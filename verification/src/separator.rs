//! Searching byte strings for a separator.

use vstd::prelude::*;

verus! {

/// The byte that ends a record.
pub const RECORD_SEPARATOR: u8 = 10;

/// The byte between a record's key and its value.
pub const FIELD_SEPARATOR: u8 = 59;

/// The number of bytes of `s` that stand before the first occurrence of
/// `b`; the whole length of `s` where `b` does not occur.
pub open spec fn first_index(s: Seq<u8>, b: u8) -> nat
    decreases s.len(),
{
    if s.len() == 0 || s[0] == b {
        0
    } else {
        1 + first_index(s.skip(1), b)
    }
}

/// `first_index` is the one position that is free of `b` before it and
/// either holds `b` or is the end of `s`.
pub proof fn lemma_first_index_unique(s: Seq<u8>, b: u8, n: int)
    requires
        0 <= n <= s.len(),
        forall|i: int| 0 <= i < n ==> s[i] != b,
        n < s.len() ==> s[n] == b,
    ensures
        first_index(s, b) == n,
    decreases s.len(),
{
    if s.len() == 0 || s[0] == b {
    } else {
        let t = s.skip(1);
        assert forall|i: int| 0 <= i < n - 1 implies t[i] != b by {
            assert(t[i] == s[i + 1]);
        }
        lemma_first_index_unique(t, b, n - 1);
    }
}

/// What `first_index` finds: no `b` before it, and `b` at it unless it is
/// the end.
pub proof fn lemma_first_index_found(s: Seq<u8>, b: u8)
    ensures
        first_index(s, b) <= s.len(),
        forall|i: int| 0 <= i < first_index(s, b) ==> s[i] != b,
        first_index(s, b) < s.len() ==> s[first_index(s, b) as int] == b,
    decreases s.len(),
{
    if s.len() == 0 || s[0] == b {
    } else {
        let t = s.skip(1);
        lemma_first_index_found(t, b);
        assert forall|i: int| 0 <= i < first_index(s, b) implies s[i] != b by {
            if i > 0 {
                assert(t[i - 1] == s[i]);
            }
        }
        assert(t[first_index(t, b) as int] == s[first_index(t, b) as int + 1] || first_index(t, b)
            >= t.len());
    }
}

/// Finds the first `b` in `s` at or after `from`; returns the length of `s`
/// where there is none.
pub fn find_byte(s: &[u8], from: usize, b: u8) -> (at: usize)
    requires
        from <= s.len(),
    ensures
        from <= at <= s.len(),
        at - from == first_index(s@.skip(from as int), b),
        forall|i: int| from <= i < at ==> s[i] != b,
        at < s.len() ==> s[at as int] == b,
{
    let mut at: usize = from;
    while at < s.len() && s[at] != b
        invariant
            from <= at <= s.len(),
            forall|i: int| from <= i < at ==> s[i] != b,
        decreases s.len() - at,
    {
        at += 1;
    }
    proof {
        let t = s@.skip(from as int);
        assert forall|i: int| 0 <= i < at - from implies t[i] != b by {
            assert(t[i] == s[i + from]);
        }
        lemma_first_index_unique(t, b, at - from);
    }
    at
}

} // verus!
