//! Sums over three indices: a block of pairs added up layer by layer gives
//! what it gives sheet by sheet; sums of entries that have the same values
//! have the same value.

use crate::number::{lemma_plus_compatible_both, lemma_times_distributes, lemma_value_transitive, plus_pair, same_value, times_pair};
use crate::tally::{col_sum, cols_total, lemma_fubini, lemma_plus_swap, row_sum, rows_total};
use vstd::prelude::*;

verus! {

/// Sums and products of pairs with positive denominators have positive
/// denominators.
pub proof fn lemma_pairs_positive(a: (int, int), b: (int, int))
    requires
        a.1 > 0,
        b.1 > 0,
    ensures
        plus_pair(a, b).1 > 0,
        times_pair(a, b).1 > 0,
{
    assert(a.1 * b.1 > 0) by (nonlinear_arith)
        requires
            a.1 > 0,
            b.1 > 0,
    ;
}

/// Nothing multiplied by a pair has the value of nothing.
pub proof fn lemma_nothing_scaled(c: (int, int))
    ensures
        same_value(times_pair((0int, 1int), c), (0int, 1int)),
        times_pair((0int, 1int), c) == (0int, c.1),
{
    assert(0 * c.0 == 0 && 1 * c.1 == c.1) by (nonlinear_arith);
}

/// Every entry of the first `n` rows and `m` columns has a positive
/// denominator.
pub open spec fn positive_grid(e: spec_fn(int, int) -> (int, int), n: nat, m: nat) -> bool {
    forall|i: int, j: int| 0 <= i < n && 0 <= j < m ==> (#[trigger] e(i, j)).1 > 0
}

/// The entries of two grids have the same values.
pub open spec fn same_grid(
    e1: spec_fn(int, int) -> (int, int),
    e2: spec_fn(int, int) -> (int, int),
    n: nat,
    m: nat,
) -> bool {
    forall|i: int, j: int| 0 <= i < n && 0 <= j < m ==> same_value(#[trigger] e1(i, j), e2(i, j))
}

/// The grid with every entry multiplied by `c`.
pub open spec fn scaled_grid(e: spec_fn(int, int) -> (int, int), c: (int, int)) -> spec_fn(
    int,
    int,
) -> (int, int) {
    |i: int, j: int| times_pair(e(i, j), c)
}

/// A row of positive entries adds up to a positive denominator.
pub proof fn lemma_row_positive(e: spec_fn(int, int) -> (int, int), i: int, n: nat, m: nat, k: nat)
    requires
        0 <= i < n,
        k <= m,
        positive_grid(e, n, m),
    ensures
        row_sum(e, i, k).1 > 0,
    decreases k,
{
    if k > 0 {
        lemma_row_positive(e, i, n, m, (k - 1) as nat);
        assert(e(i, k - 1).1 > 0);
        lemma_pairs_positive(row_sum(e, i, (k - 1) as nat), e(i, k - 1));
    }
}

/// A grid of positive entries adds up to a positive denominator.
pub proof fn lemma_rows_positive(e: spec_fn(int, int) -> (int, int), n: nat, m: nat)
    requires
        positive_grid(e, n, m),
    ensures
        rows_total(e, n, m).1 > 0,
    decreases n,
{
    if n > 0 {
        assert(positive_grid(e, (n - 1) as nat, m));
        lemma_rows_positive(e, (n - 1) as nat, m);
        lemma_row_positive(e, n - 1, n, m, m);
        lemma_pairs_positive(rows_total(e, (n - 1) as nat, m), row_sum(e, n - 1, m));
    }
}

/// Two rows whose entries have the same values add up to the same value.
pub proof fn lemma_row_value(
    e1: spec_fn(int, int) -> (int, int),
    e2: spec_fn(int, int) -> (int, int),
    i: int,
    n: nat,
    m: nat,
    k: nat,
)
    requires
        0 <= i < n,
        k <= m,
        positive_grid(e1, n, m),
        positive_grid(e2, n, m),
        same_grid(e1, e2, n, m),
    ensures
        same_value(row_sum(e1, i, k), row_sum(e2, i, k)),
    decreases k,
{
    if k > 0 {
        let j = (k - 1) as nat;
        lemma_row_value(e1, e2, i, n, m, j);
        lemma_row_positive(e1, i, n, m, j);
        lemma_row_positive(e2, i, n, m, j);
        assert(e1(i, k - 1).1 > 0 && e2(i, k - 1).1 > 0);
        assert(same_value(e1(i, k - 1), e2(i, k - 1)));
        lemma_plus_compatible_both(
            row_sum(e1, i, j),
            row_sum(e2, i, j),
            e1(i, k - 1),
            e2(i, k - 1),
        );
    }
}

/// Two grids whose entries have the same values add up to the same
/// value.
pub proof fn lemma_rows_value(
    e1: spec_fn(int, int) -> (int, int),
    e2: spec_fn(int, int) -> (int, int),
    n: nat,
    m: nat,
)
    requires
        positive_grid(e1, n, m),
        positive_grid(e2, n, m),
        same_grid(e1, e2, n, m),
    ensures
        same_value(rows_total(e1, n, m), rows_total(e2, n, m)),
        rows_total(e1, n, m).1 > 0,
        rows_total(e2, n, m).1 > 0,
    decreases n,
{
    lemma_rows_positive(e1, n, m);
    lemma_rows_positive(e2, n, m);
    if n > 0 {
        let k = (n - 1) as nat;
        assert(positive_grid(e1, k, m) && positive_grid(e2, k, m) && same_grid(e1, e2, k, m));
        lemma_rows_value(e1, e2, k, m);
        lemma_row_value(e1, e2, n - 1, n, m, m);
        lemma_row_positive(e1, n - 1, n, m, m);
        lemma_row_positive(e2, n - 1, n, m, m);
        lemma_plus_compatible_both(
            rows_total(e1, k, m),
            rows_total(e2, k, m),
            row_sum(e1, n - 1, m),
            row_sum(e2, n - 1, m),
        );
    }
}

/// A row added up and multiplied by `c` has the value of the row of the
/// entries multiplied by `c`, added up.
pub proof fn lemma_row_scaled(
    e: spec_fn(int, int) -> (int, int),
    c: (int, int),
    i: int,
    n: nat,
    m: nat,
    k: nat,
)
    requires
        0 <= i < n,
        k <= m,
        c.1 > 0,
        positive_grid(e, n, m),
    ensures
        same_value(times_pair(row_sum(e, i, k), c), row_sum(scaled_grid(e, c), i, k)),
        row_sum(e, i, k).1 > 0,
        row_sum(scaled_grid(e, c), i, k).1 > 0,
    decreases k,
{
    let s = scaled_grid(e, c);
    if k > 0 {
        let j = (k - 1) as nat;
        lemma_row_scaled(e, c, i, n, m, j);
        let r = row_sum(e, i, j);
        let x = e(i, k - 1);
        assert(x.1 > 0);
        assert(s(i, k - 1) == times_pair(x, c));
        lemma_times_distributes(r, x, c);
        lemma_pairs_positive(r, x);
        lemma_pairs_positive(r, c);
        lemma_pairs_positive(x, c);
        lemma_pairs_positive(times_pair(r, c), times_pair(x, c));
        lemma_pairs_positive(row_sum(s, i, j), times_pair(x, c));
        lemma_plus_compatible_both(
            times_pair(r, c),
            row_sum(s, i, j),
            times_pair(x, c),
            times_pair(x, c),
        );
        lemma_value_transitive(
            times_pair(plus_pair(r, x), c),
            plus_pair(times_pair(r, c), times_pair(x, c)),
            plus_pair(row_sum(s, i, j), times_pair(x, c)),
        );
    } else {
        lemma_nothing_scaled(c);
    }
}

/// A grid added up and multiplied by `c` has the value of the grid of the
/// entries multiplied by `c`, added up.
pub proof fn lemma_rows_scaled(e: spec_fn(int, int) -> (int, int), c: (int, int), n: nat, m: nat)
    requires
        c.1 > 0,
        positive_grid(e, n, m),
    ensures
        same_value(times_pair(rows_total(e, n, m), c), rows_total(scaled_grid(e, c), n, m)),
        rows_total(e, n, m).1 > 0,
        rows_total(scaled_grid(e, c), n, m).1 > 0,
    decreases n,
{
    let s = scaled_grid(e, c);
    if n > 0 {
        let k = (n - 1) as nat;
        assert(positive_grid(e, k, m));
        lemma_rows_scaled(e, c, k, m);
        lemma_row_scaled(e, c, n - 1, n, m, m);
        let r = rows_total(e, k, m);
        let x = row_sum(e, n - 1, m);
        lemma_times_distributes(r, x, c);
        lemma_pairs_positive(r, x);
        lemma_pairs_positive(r, c);
        lemma_pairs_positive(x, c);
        lemma_pairs_positive(times_pair(r, c), times_pair(x, c));
        lemma_pairs_positive(rows_total(s, k, m), row_sum(s, n - 1, m));
        lemma_plus_compatible_both(
            times_pair(r, c),
            rows_total(s, k, m),
            times_pair(x, c),
            row_sum(s, n - 1, m),
        );
        lemma_value_transitive(
            times_pair(plus_pair(r, x), c),
            plus_pair(times_pair(r, c), times_pair(x, c)),
            plus_pair(rows_total(s, k, m), row_sum(s, n - 1, m)),
        );
    } else {
        lemma_nothing_scaled(c);
    }
}

/// The entries of a block with the third index `k`.
pub open spec fn layer(f: spec_fn(int, int, int) -> (int, int), k: int) -> spec_fn(int, int) -> (
    int,
    int,
) {
    |i: int, j: int| f(i, j, k)
}

/// The entries of a block with the first index `i`.
pub open spec fn sheet(f: spec_fn(int, int, int) -> (int, int), i: int) -> spec_fn(int, int) -> (
    int,
    int,
) {
    |j: int, k: int| f(i, j, k)
}

/// The block added up layer by layer.
pub open spec fn layers_total(
    f: spec_fn(int, int, int) -> (int, int),
    n1: nat,
    n2: nat,
    n3: nat,
) -> (int, int)
    decreases n3,
{
    if n3 == 0 {
        (0, 1)
    } else {
        plus_pair(layers_total(f, n1, n2, (n3 - 1) as nat), rows_total(layer(f, n3 - 1), n1, n2))
    }
}

/// The block added up sheet by sheet.
pub open spec fn sheets_total(
    f: spec_fn(int, int, int) -> (int, int),
    n1: nat,
    n2: nat,
    n3: nat,
) -> (int, int)
    decreases n1,
{
    if n1 == 0 {
        (0, 1)
    } else {
        plus_pair(sheets_total(f, (n1 - 1) as nat, n2, n3), rows_total(sheet(f, n1 - 1), n2, n3))
    }
}

/// A row of a layer is a column of a sheet.
pub proof fn lemma_layer_row(f: spec_fn(int, int, int) -> (int, int), i: int, k: int, n2: nat)
    ensures
        row_sum(layer(f, k), i, n2) == col_sum(sheet(f, i), n2, k),
    decreases n2,
{
    if n2 > 0 {
        lemma_layer_row(f, i, k, (n2 - 1) as nat);
        assert(layer(f, k)(i, n2 - 1) == f(i, n2 - 1, k));
        assert(sheet(f, i)(n2 - 1, k) == f(i, n2 - 1, k));
    }
}

/// A block without sheets adds up to nothing, layer by layer.
pub proof fn lemma_layers_empty(f: spec_fn(int, int, int) -> (int, int), n2: nat, n3: nat)
    ensures
        layers_total(f, 0, n2, n3) == (0int, 1int),
    decreases n3,
{
    if n3 > 0 {
        lemma_layers_empty(f, n2, (n3 - 1) as nat);
    }
}

/// One more sheet, added up layer by layer, adds the sum of that sheet.
pub proof fn lemma_layers_step(f: spec_fn(int, int, int) -> (int, int), n1: nat, n2: nat, n3: nat)
    ensures
        layers_total(f, n1 + 1, n2, n3) == plus_pair(
            layers_total(f, n1, n2, n3),
            cols_total(sheet(f, n1 as int), n2, n3),
        ),
    decreases n3,
{
    if n3 > 0 {
        let k = (n3 - 1) as nat;
        lemma_layers_step(f, n1, n2, k);
        lemma_layer_row(f, n1 as int, k as int, n2);
        assert(rows_total(layer(f, k as int), n1 + 1, n2) == plus_pair(
            rows_total(layer(f, k as int), n1, n2),
            row_sum(layer(f, k as int), n1 as int, n2),
        ));
        lemma_plus_swap(
            layers_total(f, n1, n2, k),
            cols_total(sheet(f, n1 as int), n2, k),
            rows_total(layer(f, k as int), n1, n2),
            row_sum(layer(f, k as int), n1 as int, n2),
        );
    }
}

/// A block adds up to the same layer by layer and sheet by sheet.
pub proof fn lemma_layers_are_sheets(
    f: spec_fn(int, int, int) -> (int, int),
    n1: nat,
    n2: nat,
    n3: nat,
)
    ensures
        layers_total(f, n1, n2, n3) == sheets_total(f, n1, n2, n3),
    decreases n1,
{
    if n1 == 0 {
        lemma_layers_empty(f, n2, n3);
    } else {
        let k = (n1 - 1) as nat;
        lemma_layers_are_sheets(f, k, n2, n3);
        lemma_layers_step(f, k, n2, n3);
        lemma_fubini(sheet(f, k as int), n2, n3);
    }
}

/// Every entry of the block has a positive denominator.
pub open spec fn positive_block(
    f: spec_fn(int, int, int) -> (int, int),
    n1: nat,
    n2: nat,
    n3: nat,
) -> bool {
    forall|i: int, j: int, k: int|
        0 <= i < n1 && 0 <= j < n2 && 0 <= k < n3 ==> (#[trigger] f(i, j, k)).1 > 0
}

/// The entries of two blocks have the same values.
pub open spec fn same_block(
    f1: spec_fn(int, int, int) -> (int, int),
    f2: spec_fn(int, int, int) -> (int, int),
    n1: nat,
    n2: nat,
    n3: nat,
) -> bool {
    forall|i: int, j: int, k: int|
        0 <= i < n1 && 0 <= j < n2 && 0 <= k < n3 ==> same_value(
            #[trigger] f1(i, j, k),
            f2(i, j, k),
        )
}

/// Two blocks whose entries have the same values add up to the same
/// value, sheet by sheet.
pub proof fn lemma_sheets_value(
    f1: spec_fn(int, int, int) -> (int, int),
    f2: spec_fn(int, int, int) -> (int, int),
    n1: nat,
    n2: nat,
    n3: nat,
)
    requires
        positive_block(f1, n1, n2, n3),
        positive_block(f2, n1, n2, n3),
        same_block(f1, f2, n1, n2, n3),
    ensures
        same_value(sheets_total(f1, n1, n2, n3), sheets_total(f2, n1, n2, n3)),
        sheets_total(f1, n1, n2, n3).1 > 0,
        sheets_total(f2, n1, n2, n3).1 > 0,
    decreases n1,
{
    if n1 > 0 {
        let k = (n1 - 1) as nat;
        assert(positive_block(f1, k, n2, n3) && positive_block(f2, k, n2, n3) && same_block(
            f1,
            f2,
            k,
            n2,
            n3,
        ));
        lemma_sheets_value(f1, f2, k, n2, n3);
        let (e1, e2) = (sheet(f1, k as int), sheet(f2, k as int));
        assert(positive_grid(e1, n2, n3)) by {
            assert forall|j: int, l: int| 0 <= j < n2 && 0 <= l < n3 implies (#[trigger] e1(
                j,
                l,
            )).1 > 0 by {
                assert(e1(j, l) == f1(k as int, j, l));
            }
        }
        assert(positive_grid(e2, n2, n3)) by {
            assert forall|j: int, l: int| 0 <= j < n2 && 0 <= l < n3 implies (#[trigger] e2(
                j,
                l,
            )).1 > 0 by {
                assert(e2(j, l) == f2(k as int, j, l));
            }
        }
        assert(same_grid(e1, e2, n2, n3)) by {
            assert forall|j: int, l: int| 0 <= j < n2 && 0 <= l < n3 implies same_value(
                #[trigger] e1(j, l),
                e2(j, l),
            ) by {
                assert(e1(j, l) == f1(k as int, j, l));
                assert(e2(j, l) == f2(k as int, j, l));
            }
        }
        lemma_rows_value(e1, e2, n2, n3);
        lemma_plus_compatible_both(
            sheets_total(f1, k, n2, n3),
            sheets_total(f2, k, n2, n3),
            rows_total(e1, n2, n3),
            rows_total(e2, n2, n3),
        );
        lemma_pairs_positive(sheets_total(f1, k, n2, n3), rows_total(e1, n2, n3));
        lemma_pairs_positive(sheets_total(f2, k, n2, n3), rows_total(e2, n2, n3));
    }
}

} // verus!
