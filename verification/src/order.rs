use vstd::prelude::*;
use crate::game::{Heights, COLS};

verus! {

/// The column that a search visits in place `j`: the middle column first,
/// then in turn one step further to the left and to the right of it.
pub open spec fn visit(j: int) -> int {
    if j % 2 == 0 {
        COLS / 2 + (j + 1) / 2
    } else {
        COLS / 2 - (j + 1) / 2
    }
}

/// The place in which a search visits column `c`.
pub open spec fn place_of(c: int) -> int {
    if c >= COLS / 2 {
        2 * (c - COLS / 2)
    } else {
        2 * (COLS / 2 - c) - 1
    }
}

/// The visiting order is a permutation of the columns: `place_of` is the
/// inverse of `visit`.
pub proof fn lemma_visit_permutes()
    ensures
        forall|j: int|
            0 <= j < COLS ==> 0 <= #[trigger] visit(j) < COLS && place_of(visit(j)) == j,
        forall|c: int|
            0 <= c < COLS ==> 0 <= #[trigger] place_of(c) < COLS && visit(place_of(c)) == c,
{
}

/// The visiting order in one formula: the middle column, and from it
/// `(j + 1) / 2` steps to the right where `j` is even, to the left where it
/// is odd.
pub proof fn lemma_visit_formula(j: int)
    ensures
        visit(j) == COLS / 2 + (1 - 2 * (j % 2)) * ((j + 1) / 2),
{
    let step = (j + 1) / 2;
    if j % 2 == 0 {
        assert((1 - 2 * (j % 2)) * step == step) by (nonlinear_arith)
            requires
                j % 2 == 0,
        ;
    } else {
        assert((1 - 2 * (j % 2)) * step == -step) by (nonlinear_arith)
            requires
                j % 2 == 1,
        ;
    }
}

/// The order in which a search visits the columns, from the middle outwards.
pub fn column_order() -> (order: Heights)
    ensures
        forall|j: int| 0 <= j < COLS ==> #[trigger] order[j] == visit(j),
{
    let mut order: Heights = [0usize; COLS];
    let center: usize = COLS / 2;
    for j in 0..COLS
        invariant
            center == COLS / 2,
            forall|i: int| 0 <= i < j ==> #[trigger] order[i] == visit(i),
    {
        if j % 2 == 0 {
            order[j] = center + (j + 1) / 2;
        } else {
            order[j] = center - (j + 1) / 2;
        }
    }
    order
}

} // verus!
