//! Positions of elements in sequences.

use vstd::prelude::*;

verus! {

/// `i` is the first position of `x` in `s`.
pub open spec fn is_first_index<T>(s: Seq<T>, x: T, i: int) -> bool {
    &&& 0 <= i < s.len()
    &&& s[i] == x
    &&& forall|k: int| 0 <= k < i ==> s[k] != x
}

/// The first position of `x` in `s` (meaningful where `s` contains `x`).
pub open spec fn first_index<T>(s: Seq<T>, x: T) -> int {
    choose|i: int| is_first_index(s, x, i)
}

/// Every element that occurs has a first position.
pub proof fn lemma_first_index<T>(s: Seq<T>, x: T)
    requires
        s.contains(x),
    ensures
        is_first_index(s, x, first_index(s, x)),
{
    let i = choose|i: int| 0 <= i < s.len() && s[i] == x;
    lemma_first_index_below(s, x, i);
}

proof fn lemma_first_index_below<T>(s: Seq<T>, x: T, i: int)
    requires
        0 <= i < s.len(),
        s[i] == x,
    ensures
        exists|k: int| is_first_index(s, x, k),
    decreases i,
{
    if exists|k: int| 0 <= k < i && s[k] == x {
        let k = choose|k: int| 0 <= k < i && s[k] == x;
        lemma_first_index_below(s, x, k);
    } else {
        assert(is_first_index(s, x, i));
    }
}

/// `i` is the last position of `x` in `s`.
pub open spec fn is_last_index<T>(s: Seq<T>, x: T, i: int) -> bool {
    &&& 0 <= i < s.len()
    &&& s[i] == x
    &&& forall|k: int| i < k < s.len() ==> s[k] != x
}

/// The last position of `x` in `s` (meaningful where `s` contains `x`).
pub open spec fn last_index<T>(s: Seq<T>, x: T) -> int {
    choose|i: int| is_last_index(s, x, i)
}

/// Every element that occurs has a last position.
pub proof fn lemma_last_index<T>(s: Seq<T>, x: T)
    requires
        s.contains(x),
    ensures
        is_last_index(s, x, last_index(s, x)),
{
    let i = choose|i: int| 0 <= i < s.len() && s[i] == x;
    lemma_last_index_above(s, x, i);
}

proof fn lemma_last_index_above<T>(s: Seq<T>, x: T, i: int)
    requires
        0 <= i < s.len(),
        s[i] == x,
    ensures
        exists|k: int| is_last_index(s, x, k),
    decreases s.len() - i,
{
    if exists|k: int| i < k < s.len() && s[k] == x {
        let k = choose|k: int| i < k < s.len() && s[k] == x;
        lemma_last_index_above(s, x, k);
    } else {
        assert(is_last_index(s, x, i));
    }
}

} // verus!
