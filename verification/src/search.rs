//! Finding the first occurrence of a byte.

use vstd::prelude::*;

verus! {

/// The smallest index at which `s` holds `b`, if `s` holds it at all.
pub open spec fn first_index_of(s: Seq<u8>, b: u8) -> Option<int> {
    if exists|i: int| 0 <= i < s.len() && s[i] == b {
        Some(choose|i: int| 0 <= i < s.len() && s[i] == b && forall|j: int| 0 <= j < i ==> s[j] != b)
    } else {
        None
    }
}

/// A first occurrence found by inspection is the one that `first_index_of` names.
pub proof fn lemma_first_index_of_found(s: Seq<u8>, b: u8, i: int)
    requires
        0 <= i < s.len(),
        s[i] == b,
        forall|j: int| 0 <= j < i ==> s[j] != b,
    ensures
        first_index_of(s, b) == Some(i),
{
    assert(exists|k: int| 0 <= k < s.len() && s[k] == b);
    let k = choose|k: int| 0 <= k < s.len() && s[k] == b && forall|j: int| 0 <= j < k ==> s[j] != b;
    assert(0 <= k < s.len() && s[k] == b && forall|j: int| 0 <= j < k ==> s[j] != b);
    if k < i {
        assert(s[k] != b);
    }
    if i < k {
        assert(s[i] != b);
    }
}

/// What `first_index_of` names is a first occurrence; when it names none
/// there is no occurrence.
pub proof fn lemma_first_index_of_spec(s: Seq<u8>, b: u8)
    ensures
        match first_index_of(s, b) {
            Some(i) => 0 <= i < s.len() && s[i] == b && forall|j: int| 0 <= j < i ==> s[j] != b,
            None => forall|j: int| 0 <= j < s.len() ==> s[j] != b,
        },
{
    if exists|i: int| 0 <= i < s.len() && s[i] == b {
        let i = choose|i: int| 0 <= i < s.len() && s[i] == b;
        lemma_minimal_occurrence_exists(s, b, i);
    }
}

proof fn lemma_minimal_occurrence_exists(s: Seq<u8>, b: u8, i: int)
    requires
        0 <= i < s.len(),
        s[i] == b,
    ensures
        exists|k: int| 0 <= k < s.len() && s[k] == b && forall|j: int| 0 <= j < k ==> s[j] != b,
    decreases i,
{
    if exists|j: int| 0 <= j < i && s[j] == b {
        let j = choose|j: int| 0 <= j < i && s[j] == b;
        lemma_minimal_occurrence_exists(s, b, j);
    } else {
        assert(forall|j: int| 0 <= j < i ==> s[j] != b);
    }
}

/// Position of the first `needle` in `haystack`.
pub fn position(needle: u8, haystack: &[u8]) -> (res: Option<usize>)
    ensures
        match res {
            Some(i) => first_index_of(haystack@, needle) == Some(i as int) && i < haystack@.len()
                && haystack@[i as int] == needle,
            None => first_index_of(haystack@, needle) is None,
        },
{
    let n = haystack.len();
    let mut i: usize = 0;
    while i < n
        invariant
            n == haystack@.len(),
            i <= n,
            forall|j: int| 0 <= j < i ==> haystack@[j] != needle,
        decreases n - i,
    {
        if haystack[i] == needle {
            proof {
                lemma_first_index_of_found(haystack@, needle, i as int);
            }
            return Some(i);
        }
        i = i + 1;
    }
    proof {
        lemma_first_index_of_spec(haystack@, needle);
    }
    None
}

} // verus!
