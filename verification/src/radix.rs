//! Positions in a dense array and the coordinates they stand for.
//!
//! The array of a dataset holds one value for each combination of one label
//! from every axis. The first axis varies slowest: each of its labels owns a
//! contiguous run of the array, as long as the later axes have combinations;
//! within that run the second axis does the same, and so on down to the last
//! axis, which varies fastest.

use vstd::prelude::*;

verus! {

/// The number of combinations of the axes from index `from` on: the product
/// of their sizes.
pub open spec fn cells(sizes: Seq<int>, from: int) -> int
    decreases sizes.len() - from,
{
    if from >= sizes.len() {
        1
    } else {
        sizes[from] * cells(sizes, from + 1)
    }
}

/// What is left of position `i` when the first `j` axes have taken their
/// coordinates: the position within the run of one combination of theirs.
pub open spec fn rest(sizes: Seq<int>, j: int, i: int) -> int
    decreases j,
{
    if j <= 0 {
        i
    } else {
        rest(sizes, j - 1, i) % cells(sizes, j)
    }
}

/// The coordinate of position `i` on axis `j`.
pub open spec fn coordinate(sizes: Seq<int>, j: int, i: int) -> int {
    rest(sizes, j, i) / cells(sizes, j + 1)
}

/// The position that has the coordinates `c` on the axes from index `from`
/// on, within the run of one combination of the axes before.
pub open spec fn index_of(sizes: Seq<int>, c: Seq<int>, from: int) -> int
    decreases sizes.len() - from,
{
    if from >= sizes.len() {
        0
    } else {
        c[from] * cells(sizes, from + 1) + index_of(sizes, c, from + 1)
    }
}

/// Whether no axis is empty.
pub open spec fn all_positive(sizes: Seq<int>) -> bool {
    forall|j: int| 0 <= j < sizes.len() ==> #[trigger] sizes[j] >= 1
}

/// Whether `c` has one coordinate for each axis, within the size of the axis.
pub open spec fn coordinates_within(sizes: Seq<int>, c: Seq<int>) -> bool {
    &&& c.len() == sizes.len()
    &&& forall|j: int| 0 <= j < sizes.len() ==> 0 <= #[trigger] c[j] < sizes[j]
}

/// Axes without an empty one have at least one combination.
pub proof fn lemma_cells_positive(sizes: Seq<int>, from: int)
    requires
        all_positive(sizes),
        0 <= from,
    ensures
        cells(sizes, from) >= 1,
    decreases sizes.len() - from,
{
    if from < sizes.len() {
        lemma_cells_positive(sizes, from + 1);
        let here = sizes[from];
        let later = cells(sizes, from + 1);
        assert(here * later >= 1) by (nonlinear_arith)
            requires
                here >= 1,
                later >= 1,
        ;
    }
}

/// Where an axis is empty, there are no combinations at all.
pub proof fn lemma_cells_zero(sizes: Seq<int>, empty: int, from: int)
    requires
        0 <= from <= empty < sizes.len(),
        sizes[empty] == 0,
    ensures
        cells(sizes, from) == 0,
    decreases empty - from,
{
    if from < empty {
        lemma_cells_zero(sizes, empty, from + 1);
        let here = sizes[from];
        assert(here * 0 == 0) by (nonlinear_arith);
    } else {
        let later = cells(sizes, from + 1);
        assert(0 * later == 0) by (nonlinear_arith);
    }
}

/// Without an empty axis, the axes from any index on have no more
/// combinations than all axes have.
pub proof fn lemma_cells_grow(s: Seq<int>, from: int)
    requires
        all_positive(s),
        0 <= from <= s.len(),
    ensures
        cells(s, from) <= cells(s, 0),
    decreases from,
{
    if from > 0 {
        lemma_cells_grow(s, from - 1);
        lemma_cells_positive(s, from);
        let here = s[from - 1];
        let later = cells(s, from);
        assert(later <= here * later) by (nonlinear_arith)
            requires
                here >= 1,
                later >= 1,
        ;
    }
}

/// What is left of a position after `j` axes lies within the run of one
/// combination of those axes.
pub proof fn lemma_rest_bound(sizes: Seq<int>, j: int, i: int)
    requires
        all_positive(sizes),
        0 <= i < cells(sizes, 0),
        0 <= j <= sizes.len(),
    ensures
        0 <= rest(sizes, j, i) < cells(sizes, j),
    decreases j,
{
    if j > 0 {
        lemma_rest_bound(sizes, j - 1, i);
        lemma_cells_positive(sizes, j);
        let before = rest(sizes, j - 1, i);
        let run = cells(sizes, j);
        assert(0 <= before % run < run) by (nonlinear_arith)
            requires
                0 <= before,
                0 < run,
        ;
    }
}

/// A position splits into its coordinate on axis `j` and what is left after
/// that axis; and the coordinate lies within the size of the axis.
pub proof fn lemma_coordinate(sizes: Seq<int>, j: int, i: int)
    requires
        all_positive(sizes),
        0 <= i < cells(sizes, 0),
        0 <= j < sizes.len(),
    ensures
        0 <= coordinate(sizes, j, i) < sizes[j],
        rest(sizes, j, i) == coordinate(sizes, j, i) * cells(sizes, j + 1) + rest(sizes, j + 1, i),
{
    lemma_rest_bound(sizes, j, i);
    lemma_cells_positive(sizes, j + 1);
    let here = rest(sizes, j, i);
    let size = sizes[j];
    let run = cells(sizes, j + 1);
    assert(cells(sizes, j) == size * run);
    assert(0 <= here / run < size && here == (here / run) * run + here % run)
        by (nonlinear_arith)
        requires
            0 <= here < size * run,
            0 < run,
    ;
}

/// Two positions with the same coordinates leave the same after any number
/// of axes.
proof fn lemma_rest_equal(sizes: Seq<int>, a: int, b: int, j: int)
    requires
        all_positive(sizes),
        0 <= a < cells(sizes, 0),
        0 <= b < cells(sizes, 0),
        0 <= j <= sizes.len(),
        forall|k: int|
            0 <= k < sizes.len() ==> #[trigger] coordinate(sizes, k, a) == coordinate(sizes, k, b),
    ensures
        rest(sizes, j, a) == rest(sizes, j, b),
    decreases sizes.len() - j,
{
    if j == sizes.len() {
        lemma_rest_bound(sizes, j, a);
        lemma_rest_bound(sizes, j, b);
    } else {
        lemma_rest_equal(sizes, a, b, j + 1);
        lemma_coordinate(sizes, j, a);
        lemma_coordinate(sizes, j, b);
        assert(coordinate(sizes, j, a) == coordinate(sizes, j, b));
    }
}

/// Positions are told apart by their coordinates: two positions that agree
/// on every axis are one position.
pub proof fn lemma_same_coordinates(sizes: Seq<int>, a: int, b: int)
    requires
        all_positive(sizes),
        0 <= a < cells(sizes, 0),
        0 <= b < cells(sizes, 0),
        forall|k: int|
            0 <= k < sizes.len() ==> #[trigger] coordinate(sizes, k, a) == coordinate(sizes, k, b),
    ensures
        a == b,
{
    lemma_rest_equal(sizes, a, b, 0);
}

/// The position of given coordinates lies within the run it is counted in.
pub proof fn lemma_index_bound(sizes: Seq<int>, c: Seq<int>, from: int)
    requires
        all_positive(sizes),
        coordinates_within(sizes, c),
        0 <= from <= sizes.len(),
    ensures
        0 <= index_of(sizes, c, from) < cells(sizes, from),
    decreases sizes.len() - from,
{
    if from < sizes.len() {
        lemma_index_bound(sizes, c, from + 1);
        let size = sizes[from];
        let run = cells(sizes, from + 1);
        let digit = c[from];
        let low = index_of(sizes, c, from + 1);
        assert(0 <= digit * run + low < size * run) by (nonlinear_arith)
            requires
                0 <= digit < size,
                0 <= low < run,
        ;
    }
}

/// After `j` axes, the position of given coordinates leaves the position of
/// the remaining coordinates.
proof fn lemma_index_rest(sizes: Seq<int>, c: Seq<int>, j: int)
    requires
        all_positive(sizes),
        coordinates_within(sizes, c),
        0 <= j <= sizes.len(),
    ensures
        rest(sizes, j, index_of(sizes, c, 0)) == index_of(sizes, c, j),
    decreases j,
{
    if j > 0 {
        lemma_index_rest(sizes, c, j - 1);
        lemma_index_bound(sizes, c, j);
        let run = cells(sizes, j);
        let digit = c[j - 1];
        let low = index_of(sizes, c, j);
        vstd::arithmetic::div_mod::lemma_fundamental_div_mod_converse(
            digit * run + low,
            run,
            digit,
            low,
        );
    }
}

/// Every combination of coordinates is the combination of some position:
/// the position `index_of` gives has exactly the coordinates asked for.
pub proof fn lemma_index_coordinates(sizes: Seq<int>, c: Seq<int>)
    requires
        all_positive(sizes),
        coordinates_within(sizes, c),
    ensures
        0 <= index_of(sizes, c, 0) < cells(sizes, 0),
        forall|j: int|
            0 <= j < sizes.len() ==> #[trigger] coordinate(sizes, j, index_of(sizes, c, 0)) == c[j],
{
    lemma_index_bound(sizes, c, 0);
    assert forall|j: int| 0 <= j < sizes.len() implies #[trigger] coordinate(
        sizes,
        j,
        index_of(sizes, c, 0),
    ) == c[j] by {
        lemma_index_rest(sizes, c, j);
        lemma_index_bound(sizes, c, j + 1);
        let run = cells(sizes, j + 1);
        let digit = c[j];
        let low = index_of(sizes, c, j + 1);
        vstd::arithmetic::div_mod::lemma_fundamental_div_mod_converse(
            digit * run + low,
            run,
            digit,
            low,
        );
    }
}

} // verus!
