//! Searching and copying in lists.
use vstd::prelude::*;

verus! {

/// Whether `i` is the place of the first item that `p` holds of.
pub open spec fn is_first<T>(s: Seq<T>, p: spec_fn(T) -> bool, i: int) -> bool {
    &&& 0 <= i < s.len()
    &&& p(s[i])
    &&& forall|j: int| 0 <= j < i ==> !p(#[trigger] s[j])
}

/// The place of the first item that `p` holds of.
pub open spec fn first_where<T>(s: Seq<T>, p: spec_fn(T) -> bool) -> Option<int> {
    if exists|i: int| is_first(s, p, i) {
        Some(choose|i: int| is_first(s, p, i))
    } else {
        None
    }
}

/// The first place is the only first place.
pub proof fn lemma_first<T>(s: Seq<T>, p: spec_fn(T) -> bool, i: int)
    requires
        is_first(s, p, i),
    ensures
        first_where(s, p) == Some(i),
{
    let k = choose|k: int| is_first(s, p, k);
    assert(is_first(s, p, k));
    if k < i {
        assert(!p(s[k]));
    } else if i < k {
        assert(!p(s[i]));
    }
}

/// Where `p` holds of no item, there is no first place.
pub proof fn lemma_no_first<T>(s: Seq<T>, p: spec_fn(T) -> bool)
    requires
        forall|j: int| 0 <= j < s.len() ==> !p(#[trigger] s[j]),
    ensures
        first_where(s, p) is None,
{
}

/// Where `p` holds of an item there is a first item that it holds of.
pub proof fn lemma_some_first<T>(s: Seq<T>, p: spec_fn(T) -> bool, i: int)
    requires
        0 <= i < s.len(),
        p(s[i]),
    ensures
        first_where(s, p) is Some,
    decreases i,
{
    if exists|j: int| 0 <= j < i && p(#[trigger] s[j]) {
        let j = choose|j: int| 0 <= j < i && p(#[trigger] s[j]);
        lemma_some_first(s, p, j);
    } else {
        assert(is_first(s, p, i));
    }
}

/// The place that is found is that of the first item of which something holds, and there
/// is one exactly where there is such an item.
pub proof fn law_first_is_found<T>(s: Seq<T>, p: spec_fn(T) -> bool)
    ensures
        match first_where(s, p) {
            Some(i) => 0 <= i < s.len() && p(s[i]) && forall|j: int| 0 <= j < i ==> !p(#[trigger] s[j]),
            None => forall|j: int| 0 <= j < s.len() ==> !p(#[trigger] s[j]),
        },
{
    if exists|i: int| 0 <= i < s.len() && p(#[trigger] s[i]) {
        let i = choose|i: int| 0 <= i < s.len() && p(#[trigger] s[i]);
        lemma_some_first(s, p, i);
    } else {
        lemma_no_first(s, p);
    }
}

} // verus!
