//! Folding and mapping a sequence with a step that can fail: the first error
//! ends the work and is the result.

use crate::error::AlgebraError;
use vstd::prelude::*;

verus! {

/// `f` applied from left to right, starting from `init`.
pub open spec fn try_fold<A, B>(
    s: Seq<A>,
    init: B,
    f: spec_fn(B, A) -> Result<B, AlgebraError>,
) -> Result<B, AlgebraError>
    decreases s.len(),
{
    if s.len() == 0 {
        Ok(init)
    } else {
        match try_fold(s.drop_last(), init, f) {
            Ok(b) => f(b, s.last()),
            Err(e) => Err(e),
        }
    }
}

/// `f` applied to each item from left to right; the results in order.
pub open spec fn try_map<A, B>(s: Seq<A>, f: spec_fn(A) -> Result<B, AlgebraError>) -> Result<
    Seq<B>,
    AlgebraError,
>
    decreases s.len(),
{
    if s.len() == 0 {
        Ok(Seq::empty())
    } else {
        match try_map(s.drop_last(), f) {
            Ok(front) => match f(s.last()) {
                Ok(b) => Ok(front.push(b)),
                Err(e) => Err(e),
            },
            Err(e) => Err(e),
        }
    }
}

/// What a unit result says of an update in place: on success the new
/// value is the one that `model` gives, on failure nothing has changed
/// and the error is the one of `model`.
pub open spec fn updates_to<T>(
    r: Result<(), AlgebraError>,
    before: T,
    after: T,
    model: Result<T, AlgebraError>,
) -> bool {
    match model {
        Ok(t) => r is Ok && after == t,
        Err(e) => r == Err::<(), AlgebraError>(e) && after == before,
    }
}

/// What a result says of an update in place that also hands a value back:
/// on success the value and the new state are those that `model` gives, on
/// failure nothing has changed and the error is the one of `model`.
pub open spec fn yields<T, R>(
    r: Result<R, AlgebraError>,
    before: T,
    after: T,
    model: Result<(R, T), AlgebraError>,
) -> bool {
    match model {
        Ok(p) => r == Ok::<R, AlgebraError>(p.0) && after == p.1,
        Err(e) => r == Err::<R, AlgebraError>(e) && after == before,
    }
}

/// The result with its value replaced by its view.
pub open spec fn view_of<T: View>(r: Result<T, AlgebraError>) -> Result<T::V, AlgebraError> {
    match r {
        Ok(t) => Ok(t@),
        Err(e) => Err(e),
    }
}

/// One more item folded in.
pub proof fn lemma_try_fold_step<A, B>(
    s: Seq<A>,
    init: B,
    f: spec_fn(B, A) -> Result<B, AlgebraError>,
    i: int,
)
    requires
        0 <= i < s.len(),
    ensures
        try_fold(s.take(i + 1), init, f) == match try_fold(s.take(i), init, f) {
            Ok(b) => f(b, s[i]),
            Err(e) => Err(e),
        },
{
    assert(s.take(i + 1).drop_last() =~= s.take(i));
}

/// An error on a prefix is the error of the whole.
pub proof fn lemma_try_fold_err<A, B>(
    s: Seq<A>,
    init: B,
    f: spec_fn(B, A) -> Result<B, AlgebraError>,
    i: int,
)
    requires
        0 <= i <= s.len(),
        try_fold(s.take(i), init, f) is Err,
    ensures
        try_fold(s, init, f) == try_fold(s.take(i), init, f),
    decreases s.len() - i,
{
    if i < s.len() {
        lemma_try_fold_step(s, init, f, i);
        lemma_try_fold_err(s, init, f, i + 1);
    } else {
        assert(s.take(i) =~= s);
    }
}

/// One more item mapped.
pub proof fn lemma_try_map_step<A, B>(s: Seq<A>, f: spec_fn(A) -> Result<B, AlgebraError>, i: int)
    requires
        0 <= i < s.len(),
    ensures
        try_map(s.take(i + 1), f) == match try_map(s.take(i), f) {
            Ok(front) => match f(s[i]) {
                Ok(b) => Ok(front.push(b)),
                Err(e) => Err(e),
            },
            Err(e) => Err(e),
        },
{
    assert(s.take(i + 1).drop_last() =~= s.take(i));
}

/// An error on a prefix is the error of the whole.
pub proof fn lemma_try_map_err<A, B>(s: Seq<A>, f: spec_fn(A) -> Result<B, AlgebraError>, i: int)
    requires
        0 <= i <= s.len(),
        try_map(s.take(i), f) is Err,
    ensures
        try_map(s, f) == try_map(s.take(i), f),
    decreases s.len() - i,
{
    if i < s.len() {
        lemma_try_map_step(s, f, i);
        lemma_try_map_err(s, f, i + 1);
    } else {
        assert(s.take(i) =~= s);
    }
}

} // verus!
