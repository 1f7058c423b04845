//! Orders and stable sorting, as specifications.
//!
//! Sorting here is insertion from the left: each item goes behind every item
//! already placed that is not greater than it, so equal items keep their order.

use vstd::prelude::*;

verus! {

/// Lexicographic order of texts by code point; a proper prefix comes first.
pub open spec fn text_lt(a: Seq<char>, b: Seq<char>) -> bool
    decreases a.len(),
{
    if b.len() == 0 {
        false
    } else if a.len() == 0 {
        true
    } else if a[0] != b[0] {
        (a[0] as int) < (b[0] as int)
    } else {
        text_lt(a.skip(1), b.skip(1))
    }
}

/// `x` put into `s` behind every item of `s` that `x` is not less than, seen
/// from the right end.
pub open spec fn insert_sorted<T>(s: Seq<T>, x: T, lt: spec_fn(T, T) -> bool) -> Seq<T>
    decreases s.len(),
{
    if s.len() > 0 && lt(x, s.last()) {
        insert_sorted(s.drop_last(), x, lt).push(s.last())
    } else {
        s.push(x)
    }
}

/// The items of `s` inserted one by one, from the left.
pub open spec fn insertion_sort<T>(s: Seq<T>, lt: spec_fn(T, T) -> bool) -> Seq<T>
    decreases s.len(),
{
    if s.len() == 0 {
        s
    } else {
        insert_sorted(insertion_sort(s.drop_last(), lt), s.last(), lt)
    }
}

/// No item is less than one that stands before it.
pub open spec fn sorted_by<T>(s: Seq<T>, lt: spec_fn(T, T) -> bool) -> bool {
    forall|i: int, j: int| 0 <= i < j < s.len() ==> !lt(#[trigger] s[j], #[trigger] s[i])
}

/// Where `x` is less than everything from `j` on and not less than the item
/// before `j`, insertion puts it at `j`.
pub proof fn lemma_insert_position<T>(s: Seq<T>, x: T, lt: spec_fn(T, T) -> bool, j: int)
    requires
        0 <= j <= s.len(),
        j > 0 ==> !lt(x, s[j - 1]),
        forall|k: int| j <= k < s.len() ==> lt(x, #[trigger] s[k]),
    ensures
        insert_sorted(s, x, lt) == s.insert(j, x),
    decreases s.len() - j,
{
    if j == s.len() {
        assert(s.push(x) =~= s.insert(j, x));
    } else {
        assert(lt(x, s[s.len() - 1]));
        lemma_insert_position(s.drop_last(), x, lt, j);
        assert(s.drop_last().insert(j, x).push(s.last()) =~= s.insert(j, x));
    }
}

/// Sorting leaves a sorted sequence as it is.
pub proof fn lemma_sort_of_sorted<T>(s: Seq<T>, lt: spec_fn(T, T) -> bool)
    requires
        sorted_by(s, lt),
    ensures
        insertion_sort(s, lt) == s,
    decreases s.len(),
{
    if s.len() > 0 {
        let front = s.drop_last();
        lemma_sort_of_sorted(front, lt);
        if front.len() > 0 {
            assert(front.last() == s[s.len() - 2]);
            assert(!lt(s[s.len() - 1], s[s.len() - 2]));
        }
        assert(front.push(s.last()) =~= s);
    }
}

/// `<` of `str` on two names: the lexicographic order of their bytes, which
/// for UTF-8 is the order of their code points.
#[verifier::external_body]
pub(crate) fn name_lt(a: &String, b: &String) -> (r: bool)
    ensures
        r == text_lt(a@, b@),
{
    a < b
}

} // verus!
