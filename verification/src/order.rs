//! The order in which the pixels of an image are written.

use vstd::prelude::*;
use std::cmp::Ordering;
use itertools::Itertools;
use crate::color::Color;

verus! {

/// A shaded pixel: its column, its row and its colour.
pub type Shaded = (u32, u32, Color);

/// Whether `a` lies on the same pixel as `b`.
pub open spec fn same_cell(a: Shaded, b: Shaded) -> bool {
    a.0 == b.0 && a.1 == b.1
}

/// Whether `a` comes before `b` when rows go from top to bottom and each row
/// from left to right.
pub open spec fn row_major_lt(a: Shaded, b: Shaded) -> bool {
    a.1 < b.1 || (a.1 == b.1 && a.0 < b.0)
}

/// Compares two pixels by row, then by column.
pub fn row_major_order(a: &Shaded, b: &Shaded) -> (order: Ordering)
    ensures
        order is Less <==> row_major_lt(*a, *b),
        order is Equal <==> same_cell(*a, *b),
        order is Greater <==> row_major_lt(*b, *a),
{
    if a.1 < b.1 {
        Ordering::Less
    } else if a.1 > b.1 {
        Ordering::Greater
    } else if a.0 < b.0 {
        Ordering::Less
    } else if a.0 > b.0 {
        Ordering::Greater
    } else {
        Ordering::Equal
    }
}

/// Sorts pixels with `Itertools::sorted_by` of itertools, under
/// `row_major_order`.
///
/// Trusted of the outside call: the result holds the pixels of `shaded`, each
/// as often as `shaded` does, and no pixel in it stands before one that
/// precedes it in row-major order. The outside sort also keeps pixels of one
/// cell in the order they came in; that is not stated here.
#[verifier::external_body]
pub(crate) fn sorted_row_major(shaded: Vec<Shaded>) -> (sorted: Vec<Shaded>)
    ensures
        sorted@.to_multiset() == shaded@.to_multiset(),
        forall|i: int, j: int|
            0 <= i < j < sorted@.len() ==> !row_major_lt(#[trigger] sorted@[j], #[trigger] sorted@[i]),
{
    shaded.into_iter().sorted_by(|a, b| row_major_order(a, b)).collect()
}

/// Lists the cells of a `width` by `height` frame with
/// `Itertools::cartesian_product` of itertools, applied to the two ranges.
///
/// Trusted of the outside call: it pairs each column with every row, columns
/// in rising order and, within a column, rows in rising order. The bound keeps
/// the list within what a vector can hold.
#[verifier::external_body]
pub(crate) fn cells_by_column(width: u32, height: u32) -> (cells: Vec<(u32, u32)>)
    requires
        16 * (width * height) <= isize::MAX,
    ensures
        cells@.len() == width * height,
        forall|i: int|
            0 <= i < cells@.len() ==> (#[trigger] cells@[i]).0 == i / (height as int) && cells@[i].1
                == i % (height as int),
{
    (0..width).cartesian_product(0..height).collect()
}

} // verus!
