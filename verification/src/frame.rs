//! The frame of a scene: the list of pixels to shade, and the image that the
//! shaded pixels make once they are back in order.

use vstd::prelude::*;
use vstd::arithmetic::div_mod::lemma_fundamental_div_mod;
use vstd::arithmetic::div_mod::lemma_fundamental_div_mod_converse;
use vstd::arithmetic::div_mod::lemma_multiply_divide_lt;
use vstd::arithmetic::div_mod::lemma_div_pos_is_pos;
use vstd::arithmetic::div_mod::lemma_mod_bound;
use vstd::seq_lib::to_multiset_len;
use vstd::seq_lib::to_multiset_contains;
use crate::color::Color;
use crate::order::Shaded;
use crate::order::cells_by_column;
use crate::order::row_major_lt;
use crate::order::same_cell;
use crate::order::sorted_row_major;
use crate::ppm::Rgb;
use crate::ppm::encode;
use crate::ppm::image;
use crate::scene::Scene;

verus! {

/// Why shaded pixels do not make an image of the scene's frame.
#[derive(Clone, Copy, Debug, PartialEq, Eq)]
pub enum RenderError {
    /// There are more or fewer pixels than the frame has.
    PixelCount,
    /// The count is right, but a pixel lies outside the frame or two lie on
    /// one cell.
    PixelPlacement,
}

impl Scene {
    /// The number of pixels in the frame.
    pub open spec fn area(&self) -> nat {
        (self.width as nat) * (self.height as nat)
    }

    /// Whether the list of all pixels can be held in memory.
    pub open spec fn listable(&self) -> bool {
        16 * self.area() <= isize::MAX
    }

    /// The pixels of the frame as `(column, row)`, column by column.
    pub open spec fn cells(&self) -> Seq<(u32, u32)> {
        Seq::new(
            self.area(),
            |i: int| ((i / (self.height as int)) as u32, (i % (self.height as int)) as u32),
        )
    }

    /// Whether column `x`, row `y` is a pixel of the frame.
    pub open spec fn in_frame(&self, x: u32, y: u32) -> bool {
        x < self.width && y < self.height
    }

    /// The place of pixel `(x, y)` in the image: rows from top to bottom, each
    /// row from left to right.
    pub open spec fn slot(&self, x: u32, y: u32) -> int {
        y * self.width + x
    }

    /// Whether `shaded` holds every pixel of the frame exactly once.
    pub open spec fn covers(&self, shaded: Seq<Shaded>) -> bool {
        &&& shaded.len() == self.area()
        &&& forall|i: int|
            0 <= i < shaded.len() ==> self.in_frame((#[trigger] shaded[i]).0, shaded[i].1)
        &&& forall|i: int, j: int|
            0 <= i < j < shaded.len() ==> !same_cell(#[trigger] shaded[i], #[trigger] shaded[j])
    }

    /// An index in `shaded` of the pixel whose place in the image is `slot`.
    pub open spec fn holder(&self, shaded: Seq<Shaded>, slot: int) -> int {
        choose|i: int| 0 <= i < shaded.len() && self.slot(shaded[i].0, shaded[i].1) == slot
    }

    /// The 8-bit colours of `shaded` in the order of the image.
    pub open spec fn row_major(&self, shaded: Seq<Shaded>) -> Seq<Rgb> {
        Seq::new(self.area(), |slot: int| shaded[self.holder(shaded, slot)].2.rgb())
    }

    /// The number of pixels in the frame.
    pub fn pixel_count(&self) -> (count: u64)
        ensures
            count == self.area(),
    {
        assert(self.width * self.height <= 0xFFFF_FFFF * 0xFFFF_FFFF) by (nonlinear_arith)
            requires
                self.width <= 0xFFFF_FFFF,
                self.height <= 0xFFFF_FFFF,
        ;
        (self.width as u64) * (self.height as u64)
    }

    /// Whether the frame is wider than it is high, as the camera needs it.
    pub fn is_landscape(&self) -> (landscape: bool)
        ensures
            landscape == (self.height < self.width),
    {
        self.height < self.width
    }

    /// The pixels to shade, as `(column, row)`: each pixel of the frame once.
    /// `None` where the list would be too long to hold.
    pub fn pixels(&self) -> (cells: Option<Vec<(u32, u32)>>)
        ensures
            cells is Some <==> self.listable(),
            cells matches Some(list) ==> list@ == self.cells(),
    {
        let area = self.pixel_count();
        if area > (isize::MAX as u64) / 16 {
            return None;
        }
        let list = cells_by_column(self.width, self.height);
        Some(list)
    }

    /// The image that the shaded pixels make, as text.
    ///
    /// The pixels may come in any order. Each colour is cut to 8 bits, and the
    /// pixels are written row by row from the top, each row from the left. The
    /// pixels must be those of the frame, each once.
    pub fn render(&self, shaded: Vec<Shaded>) -> (out: Result<Vec<u8>, RenderError>)
        ensures
            match out {
                Ok(text) => self.covers(shaded@) && text@ == image(
                    self.width,
                    self.height,
                    self.row_major(shaded@),
                ),
                Err(RenderError::PixelCount) => shaded@.len() != self.area(),
                Err(RenderError::PixelPlacement) => shaded@.len() == self.area() && !self.covers(
                    shaded@,
                ),
            },
    {
        let count = self.pixel_count();
        if shaded.len() as u64 != count {
            return Err(RenderError::PixelCount);
        }
        let ghost given = shaded@;
        let sorted = sorted_row_major(shaded);
        proof {
            to_multiset_len(given);
            to_multiset_len(sorted@);
        }
        let width = self.width as usize;
        let mut pixels: Vec<Rgb> = Vec::new();
        let mut k: usize = 0;
        while k < sorted.len()
            invariant
                k <= sorted.len(),
                given == shaded@,
                sorted@.len() == self.area(),
                given.len() == self.area(),
                width == self.width,
                sorted@.to_multiset() == given.to_multiset(),
                forall|i: int, j: int|
                    0 <= i < j < sorted@.len() ==> !row_major_lt(
                        #[trigger] sorted@[j],
                        #[trigger] sorted@[i],
                    ),
                pixels@.len() == k,
                forall|i: int|
                    0 <= i < k ==> self.in_frame((#[trigger] sorted@[i]).0, sorted@[i].1)
                        && self.slot(sorted@[i].0, sorted@[i].1) == i,
                forall|i: int| 0 <= i < k ==> #[trigger] pixels@[i] == sorted@[i].2.rgb(),
            decreases sorted.len() - k,
        {
            let (x, y, color) = sorted[k];
            proof {
                lemma_cell_of_slot(*self, k as int);
            }
            if x as usize != k % width || y as usize != k / width {
                proof {
                    if self.covers(given) {
                        lemma_cover_transfer(*self, given, sorted@);
                        lemma_sorted_cover(*self, sorted@);
                        lemma_slot_parts(self.width as int, x as int, y as int);
                    }
                }
                return Err(RenderError::PixelPlacement);
            }
            proof {
                lemma_fundamental_div_mod(k as int, self.width as int);
                assert(self.width * (k as int / self.width as int) == (k as int / self.width as int)
                    * self.width) by (nonlinear_arith);
            }
            pixels.push(color.to_rgb());
            k = k + 1;
        }
        proof {
            assert(self.covers(sorted@));
            lemma_cover_transfer(*self, sorted@, given);
            lemma_row_major_of_sorted(*self, given, sorted@);
            assert(pixels@ =~= self.row_major(given));
        }
        Ok(encode(self.width, self.height, &pixels))
    }
}

/// In a frame of width `w`, the pixel in column `x` of row `y` has the place
/// `y * w + x`, from which column and row are had back by `%` and `/`.
proof fn lemma_slot_parts(w: int, x: int, y: int)
    requires
        0 <= x < w,
        0 <= y,
    ensures
        (y * w + x) % w == x,
        (y * w + x) / w == y,
{
    lemma_fundamental_div_mod_converse(y * w + x, w, y, x);
}

/// The place of a pixel of the frame is below the frame's area.
proof fn lemma_slot_bound(w: int, h: int, x: int, y: int)
    requires
        0 <= x < w,
        0 <= y < h,
    ensures
        0 <= y * w + x < w * h,
{
    assert(y * w + w <= h * w) by (nonlinear_arith)
        requires
            y + 1 <= h,
            0 < w,
    ;
    assert(0 <= y * w) by (nonlinear_arith)
        requires
            0 <= y,
            0 < w,
    ;
}

/// A pixel that precedes another in row-major order has the smaller place.
proof fn lemma_slot_rises(w: int, x1: int, y1: int, x2: int, y2: int)
    requires
        0 <= x1 < w,
        0 <= x2 < w,
        0 <= y1,
        0 <= y2,
        y1 < y2 || (y1 == y2 && x1 < x2),
    ensures
        y1 * w + x1 < y2 * w + x2,
{
    if y1 < y2 {
        assert(y1 * w + w <= y2 * w) by (nonlinear_arith)
            requires
                y1 + 1 <= y2,
                0 < w,
        ;
    }
}

/// The place `k` of a frame belongs to a pixel of the frame.
proof fn lemma_cell_of_slot(scene: Scene, k: int)
    requires
        0 <= k < scene.area(),
    ensures
        0 < scene.width,
        0 <= k % (scene.width as int) < scene.width,
        0 <= k / (scene.width as int) < scene.height,
{
    let w = scene.width as int;
    let h = scene.height as int;
    assert(0 < w) by (nonlinear_arith)
        requires
            0 <= k < w * h,
            0 <= w,
    ;
    lemma_mod_bound(k, w);
    lemma_multiply_divide_lt(k, w, h);
    lemma_div_pos_is_pos(k, w);
}

/// A strictly rising sequence is bounded below by its indices.
proof fn lemma_rising_lower(s: Seq<int>, i: int)
    requires
        0 <= i < s.len(),
        0 <= s[0],
        forall|a: int, b: int| 0 <= a < b < s.len() ==> #[trigger] s[a] < #[trigger] s[b],
    ensures
        i <= s[i],
    decreases i,
{
    if i > 0 {
        lemma_rising_lower(s, i - 1);
    }
}

/// A strictly rising sequence of numbers below its length is bounded above by
/// its indices.
proof fn lemma_rising_upper(s: Seq<int>, i: int)
    requires
        0 <= i < s.len(),
        s[s.len() - 1] < s.len(),
        forall|a: int, b: int| 0 <= a < b < s.len() ==> #[trigger] s[a] < #[trigger] s[b],
    ensures
        s[i] <= i,
    decreases s.len() - i,
{
    if i < s.len() - 1 {
        lemma_rising_upper(s, i + 1);
    }
}

/// Pixels that hold each cell of the frame once hold it still in another order.
proof fn lemma_cover_transfer(scene: Scene, a: Seq<Shaded>, b: Seq<Shaded>)
    requires
        scene.covers(a),
        a.to_multiset() == b.to_multiset(),
    ensures
        scene.covers(b),
{
    to_multiset_len(a);
    to_multiset_len(b);
    assert forall|i: int| 0 <= i < b.len() implies scene.in_frame((#[trigger] b[i]).0, b[i].1) by {
        lemma_found_in(b, a, i);
    }
    a.lemma_multiset_has_no_duplicates();
    b.lemma_multiset_has_no_duplicates_conv();
    assert forall|i: int, j: int| 0 <= i < j < b.len() implies !same_cell(
        #[trigger] b[i],
        #[trigger] b[j],
    ) by {
        let p = lemma_found_in(b, a, i);
        let q = lemma_found_in(b, a, j);
        if same_cell(b[i], b[j]) {
            // One cell occurs once in `a`, so the two would be one pixel, held twice by `b`.
            assert(p == q);
        }
    }
}

/// An element of one sequence is found in another that holds the same
/// elements.
proof fn lemma_found_in(b: Seq<Shaded>, a: Seq<Shaded>, i: int) -> (p: int)
    requires
        0 <= i < b.len(),
        a.to_multiset() == b.to_multiset(),
    ensures
        0 <= p < a.len(),
        a[p] == b[i],
{
    to_multiset_contains(b, b[i]);
    to_multiset_contains(a, b[i]);
    choose|p: int| 0 <= p < a.len() && a[p] == b[i]
}

/// Pixels that hold each cell of the frame once and stand in row-major order
/// stand each at its place.
proof fn lemma_sorted_cover(scene: Scene, sorted: Seq<Shaded>)
    requires
        scene.covers(sorted),
        forall|i: int, j: int|
            0 <= i < j < sorted.len() ==> !row_major_lt(#[trigger] sorted[j], #[trigger] sorted[i]),
    ensures
        forall|k: int|
            0 <= k < sorted.len() ==> scene.slot((#[trigger] sorted[k]).0, sorted[k].1) == k,
{
    let slots = Seq::new(sorted.len(), |k: int| scene.slot(sorted[k].0, sorted[k].1));
    let w = scene.width as int;
    let h = scene.height as int;
    assert forall|k: int| 0 <= k < slots.len() implies 0 <= #[trigger] slots[k] < slots.len() by {
        lemma_slot_bound(w, h, sorted[k].0 as int, sorted[k].1 as int);
    }
    assert forall|a: int, b: int| 0 <= a < b < slots.len() implies #[trigger] slots[a]
        < #[trigger] slots[b] by {
        lemma_slot_rises(
            w,
            sorted[a].0 as int,
            sorted[a].1 as int,
            sorted[b].0 as int,
            sorted[b].1 as int,
        );
    }
    assert forall|k: int| 0 <= k < sorted.len() implies scene.slot(
        (#[trigger] sorted[k]).0,
        sorted[k].1,
    ) == k by {
        lemma_rising_lower(slots, k);
        lemma_rising_upper(slots, k);
    }
}

/// The image of pixels that cover the frame is read off their sorted order.
proof fn lemma_row_major_of_sorted(scene: Scene, shaded: Seq<Shaded>, sorted: Seq<Shaded>)
    requires
        scene.covers(shaded),
        shaded.to_multiset() == sorted.to_multiset(),
        forall|k: int|
            0 <= k < sorted.len() ==> scene.slot((#[trigger] sorted[k]).0, sorted[k].1) == k,
    ensures
        scene.row_major(shaded) == Seq::new(scene.area(), |k: int| sorted[k].2.rgb()),
{
    to_multiset_len(shaded);
    to_multiset_len(sorted);
    let w = scene.width as int;
    assert forall|k: int| 0 <= k < scene.area() implies shaded[scene.holder(shaded, k)]
        == #[trigger] sorted[k] by {
        let p = lemma_found_in(sorted, shaded, k);
        let q = scene.holder(shaded, k);
        lemma_slot_parts(w, shaded[p].0 as int, shaded[p].1 as int);
        lemma_slot_parts(w, shaded[q].0 as int, shaded[q].1 as int);
        // Both have the place `k`, so they lie on one cell, which occurs once.
        assert(p == q);
    }
}

/// An order on shaded pixels that agrees with row-major order and tells any two
/// different pixels apart.
spec fn refined_le(a: Shaded, b: Shaded) -> bool {
    if a.1 != b.1 {
        a.1 < b.1
    } else if a.0 != b.0 {
        a.0 < b.0
    } else if a.2.red != b.2.red {
        a.2.red < b.2.red
    } else if a.2.green != b.2.green {
        a.2.green < b.2.green
    } else {
        a.2.blue <= b.2.blue
    }
}

/// Pixels that cover the frame can be put in row-major order: some sequence
/// holds the same pixels, each at its place.
proof fn lemma_cover_sorts(scene: Scene, shaded: Seq<Shaded>) -> (sorted: Seq<Shaded>)
    requires
        scene.covers(shaded),
    ensures
        sorted.to_multiset() == shaded.to_multiset(),
        sorted.len() == scene.area(),
        forall|k: int|
            0 <= k < sorted.len() ==> scene.slot((#[trigger] sorted[k]).0, sorted[k].1) == k,
{
    let leq = |a: Shaded, b: Shaded| refined_le(a, b);
    let sorted = shaded.sort_by(leq);
    shaded.lemma_sort_by_ensures(leq);
    to_multiset_len(shaded);
    to_multiset_len(sorted);
    lemma_cover_transfer(scene, shaded, sorted);
    assert forall|i: int, j: int| 0 <= i < j < sorted.len() implies !row_major_lt(
        #[trigger] sorted[j],
        #[trigger] sorted[i],
    ) by {
        assert(leq(sorted[i], sorted[j]));
    }
    lemma_sorted_cover(scene, sorted);
    sorted
}

/// The image does not depend on the order in which the shaded pixels arrive:
/// two arrangements of the same pixels give the same image.
pub proof fn lemma_render_ignores_order(scene: Scene, a: Seq<Shaded>, b: Seq<Shaded>)
    requires
        scene.covers(a),
        a.to_multiset() == b.to_multiset(),
    ensures
        scene.covers(b),
        scene.row_major(a) == scene.row_major(b),
{
    lemma_cover_transfer(scene, a, b);
    let sorted = lemma_cover_sorts(scene, a);
    lemma_row_major_of_sorted(scene, a, sorted);
    lemma_row_major_of_sorted(scene, b, sorted);
}

/// In the image the rows follow each other from the top and each row runs from
/// the left: the colour of the pixel in column `x` of row `y` stands at place
/// `y * width + x`.
pub proof fn lemma_row_major_places(scene: Scene, shaded: Seq<Shaded>, i: int)
    requires
        scene.covers(shaded),
        0 <= i < shaded.len(),
    ensures
        0 <= scene.slot(shaded[i].0, shaded[i].1) < scene.area(),
        scene.row_major(shaded)[scene.slot(shaded[i].0, shaded[i].1)] == shaded[i].2.rgb(),
{
    let w = scene.width as int;
    let k = scene.slot(shaded[i].0, shaded[i].1);
    lemma_slot_bound(w, scene.height as int, shaded[i].0 as int, shaded[i].1 as int);
    let q = scene.holder(shaded, k);
    lemma_slot_parts(w, shaded[i].0 as int, shaded[i].1 as int);
    lemma_slot_parts(w, shaded[q].0 as int, shaded[q].1 as int);
    // Both have the place `k`, so they lie on one cell, which occurs once.
    assert(q == i);
}

/// The list of pixels to shade covers the frame, whatever colours the pixels
/// get.
pub proof fn lemma_cells_cover(scene: Scene, colors: Seq<Color>)
    requires
        colors.len() == scene.area(),
    ensures
        scene.covers(
            Seq::new(
                scene.area(),
                |i: int| (scene.cells()[i].0, scene.cells()[i].1, colors[i]),
            ),
        ),
{
    let shaded = Seq::new(
        scene.area(),
        |i: int| (scene.cells()[i].0, scene.cells()[i].1, colors[i]),
    );
    let w = scene.width as int;
    let h = scene.height as int;
    assert forall|i: int| 0 <= i < shaded.len() implies scene.in_frame(
        (#[trigger] shaded[i]).0,
        shaded[i].1,
    ) && shaded[i].0 == i / h && shaded[i].1 == i % h by {
        assert(0 < h) by (nonlinear_arith)
            requires
                0 <= i < w * h,
                0 <= h,
                0 <= w,
        ;
        lemma_mod_bound(i, h);
        lemma_multiply_divide_lt(i, h, w);
        lemma_div_pos_is_pos(i, h);
    }
    assert forall|i: int, j: int| 0 <= i < j < shaded.len() implies !same_cell(
        #[trigger] shaded[i],
        #[trigger] shaded[j],
    ) by {
        lemma_fundamental_div_mod(i, h);
        lemma_fundamental_div_mod(j, h);
    }
}

} // verus!
