//! Byte-level primitives shared by the line splitter and the line parser:
//! finding the first occurrence of a delimiter byte and comparing byte
//! strings for equality.

use vstd::prelude::*;

verus! {

/// The views of a sequence of byte strings.
pub open spec fn views(ss: Seq<Vec<u8>>) -> Seq<Seq<u8>> {
    ss.map_values(|s: Vec<u8>| s@)
}

/// Index of the first occurrence of `c` in `s`, or `s.len()` when `c`
/// does not occur.
pub open spec fn first_occurrence(s: Seq<u8>, c: u8) -> int
    decreases s.len(),
{
    if s.len() == 0 {
        0
    } else if s[0] == c {
        0
    } else {
        1 + first_occurrence(s.skip(1), c)
    }
}

/// `first_occurrence` is the least index holding `c`, and it is `s.len()`
/// exactly when `c` does not occur in `s`.
pub proof fn lemma_first_occurrence(s: Seq<u8>, c: u8)
    ensures
        0 <= first_occurrence(s, c) <= s.len(),
        forall|j: int| 0 <= j < first_occurrence(s, c) ==> s[j] != c,
        first_occurrence(s, c) < s.len() ==> s[first_occurrence(s, c)] == c,
    decreases s.len(),
{
    if s.len() == 0 {
    } else if s[0] == c {
    } else {
        lemma_first_occurrence(s.skip(1), c);
        assert forall|j: int| 0 <= j < first_occurrence(s, c) implies s[j] != c by {
            if j > 0 {
                assert(s.skip(1)[j - 1] == s[j]);
            }
        }
        if first_occurrence(s, c) < s.len() {
            assert(s.skip(1)[first_occurrence(s, c) - 1] == s[first_occurrence(s, c)]);
        }
    }
}

/// Any index that is the least one holding `c` (or the length, when `c` is
/// absent) equals `first_occurrence`.
pub proof fn lemma_first_occurrence_unique(s: Seq<u8>, c: u8, i: int)
    requires
        0 <= i <= s.len(),
        forall|j: int| 0 <= j < i ==> s[j] != c,
        i < s.len() ==> s[i] == c,
    ensures
        first_occurrence(s, c) == i,
{
    lemma_first_occurrence(s, c);
    let f = first_occurrence(s, c);
    if f < i {
        assert(s[f] == c);
        assert(s[f] != c);
    }
    if i < f {
        assert(s[i] != c);
    }
}

/// Finds the first occurrence of `c` in `s` at or after `from`, returning
/// `s.len()` when there is none.
pub fn find_from(s: &[u8], from: usize, c: u8) -> (r: usize)
    requires
        from <= s@.len(),
    ensures
        r == from + first_occurrence(s@.skip(from as int), c),
{
    let ghost suffix = s@.skip(from as int);
    let mut i: usize = from;
    while i < s.len()
        invariant
            from <= i <= s@.len(),
            suffix == s@.skip(from as int),
            forall|j: int| from <= j < i ==> s@[j] != c,
        decreases s@.len() - i,
    {
        if s[i] == c {
            proof {
                assert forall|j: int| 0 <= j < i - from implies suffix[j] != c by {
                    assert(suffix[j] == s@[from + j]);
                }
                assert(suffix[i - from] == s@[i as int]);
                lemma_first_occurrence_unique(suffix, c, i - from);
            }
            return i;
        }
        i = i + 1;
    }
    proof {
        assert forall|j: int| 0 <= j < suffix.len() implies suffix[j] != c by {
            assert(suffix[j] == s@[from + j]);
        }
        lemma_first_occurrence_unique(suffix, c, suffix.len() as int);
    }
    i
}

/// Byte-for-byte equality of two byte strings.
pub fn bytes_eq(a: &[u8], b: &[u8]) -> (r: bool)
    ensures
        r <==> a@ == b@,
{
    if a.len() != b.len() {
        assert(a@ != b@);
        return false;
    }
    let mut i: usize = 0;
    while i < a.len()
        invariant
            i <= a@.len(),
            a@.len() == b@.len(),
            forall|j: int| 0 <= j < i ==> a@[j] == b@[j],
        decreases a@.len() - i,
    {
        if a[i] != b[i] {
            return false;
        }
        i = i + 1;
    }
    proof {
        assert(a@ =~= b@);
    }
    true
}

} // verus!
