//! Searching a byte sequence for the first occurrence of a byte.

use vstd::prelude::*;

verus! {

/// The line terminator.
pub const NEWLINE: u8 = 10;

/// Position of the first occurrence of `b` in `s`, or `s.len()` if there is
/// none.
pub open spec fn index_of(s: Seq<u8>, b: u8) -> int
    decreases s.len(),
{
    if s.len() == 0 {
        0
    } else if s[0] == b {
        0
    } else {
        1 + index_of(s.skip(1), b)
    }
}

/// `index_of` lies within the sequence, nothing before it is `b`, and it
/// points at `b` unless it is the length.
pub proof fn lemma_index_of_first(s: Seq<u8>, b: u8)
    ensures
        0 <= index_of(s, b) <= s.len(),
        forall|j: int| 0 <= j < index_of(s, b) ==> s[j] != b,
        index_of(s, b) < s.len() ==> s[index_of(s, b)] == b,
    decreases s.len(),
{
    if s.len() != 0 && s[0] != b {
        let rest = s.skip(1);
        lemma_index_of_first(rest, b);
        assert forall|j: int| 0 <= j < index_of(s, b) implies s[j] != b by {
            if j > 0 {
                assert(s[j] == rest[j - 1]);
            }
        }
        assert(index_of(s, b) < s.len() ==> s[index_of(s, b)] == rest[index_of(rest, b)]);
    }
}

/// A position that no `b` precedes, and that holds `b` or is the length, is
/// `index_of`.
pub proof fn lemma_index_of_is(s: Seq<u8>, b: u8, i: int)
    requires
        0 <= i <= s.len(),
        forall|j: int| 0 <= j < i ==> s[j] != b,
        i < s.len() ==> s[i] == b,
    ensures
        index_of(s, b) == i,
{
    lemma_index_of_first(s, b);
    let k = index_of(s, b);
    if k < i {
        assert(s[k] != b);
    } else if i < k {
        assert(s[i] != b);
    }
}

/// Position of the first `b` at or after `from`, or the length of `s`.
pub fn find_byte(s: &[u8], from: usize, b: u8) -> (at: usize)
    requires
        from <= s.len(),
    ensures
        at == from + index_of(s@.skip(from as int), b),
        from <= at <= s.len(),
{
    let mut at: usize = from;
    while at < s.len() && s[at] != b
        invariant
            from <= at <= s.len(),
            forall|j: int| from <= j < at ==> s@[j] != b,
        decreases s.len() - at,
    {
        at = at + 1;
    }
    proof {
        let tail = s@.skip(from as int);
        assert forall|j: int| 0 <= j < at - from implies tail[j] != b by {
            assert(tail[j] == s@[from + j]);
        }
        lemma_index_of_is(tail, b, at - from);
    }
    at
}

} // verus!
