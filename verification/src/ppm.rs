//! The plain text image format: a header, then one line per pixel.

use vstd::prelude::*;

verus! {

/// An 8-bit colour: red, green, blue.
pub type Rgb = (u8, u8, u8);

/// The byte of a line feed.
pub const NEWLINE: u8 = 10;

/// The byte of a space.
pub const SPACE: u8 = 32;

/// The byte of the digit zero.
pub const ZERO: u8 = 48;

/// The decimal digits of `n`, most significant first, without leading zeros.
pub open spec fn decimal(n: nat) -> Seq<u8>
    decreases n,
{
    if n < 10 {
        seq![(ZERO + n) as u8]
    } else {
        decimal(n / 10).push((ZERO + n % 10) as u8)
    }
}

/// The three lines before the pixels: the format's name, the frame's width and
/// height, and the largest channel value.
pub open spec fn header(width: u32, height: u32) -> Seq<u8> {
    seq![80u8, 51u8, NEWLINE] + decimal(width as nat) + seq![SPACE] + decimal(height as nat)
        + seq![NEWLINE, 50u8, 53u8, 53u8, NEWLINE]
}

/// The line of one pixel: its three channels in decimal, separated by spaces.
pub open spec fn pixel_line(pixel: Rgb) -> Seq<u8> {
    decimal(pixel.0 as nat) + seq![SPACE] + decimal(pixel.1 as nat) + seq![SPACE] + decimal(
        pixel.2 as nat,
    ) + seq![NEWLINE]
}

/// The lines of all pixels, in the order given.
pub open spec fn body(pixels: Seq<Rgb>) -> Seq<u8>
    decreases pixels.len(),
{
    if pixels.len() == 0 {
        Seq::empty()
    } else {
        body(pixels.drop_last()) + pixel_line(pixels.last())
    }
}

/// The whole image as text.
pub open spec fn image(width: u32, height: u32, pixels: Seq<Rgb>) -> Seq<u8> {
    header(width, height) + body(pixels)
}

/// The number of line feeds in `text`.
pub open spec fn lines(text: Seq<u8>) -> nat
    decreases text.len(),
{
    if text.len() == 0 {
        0
    } else {
        lines(text.drop_last()) + if text.last() == NEWLINE { 1nat } else { 0nat }
    }
}

/// Appends the decimal digits of `n` to `out`.
pub fn push_decimal(out: &mut Vec<u8>, n: u32)
    ensures
        final(out)@ == old(out)@ + decimal(n as nat),
    decreases n,
{
    if n >= 10 {
        push_decimal(out, n / 10);
    }
    let digit: u8 = (n % 10) as u8;
    out.push(ZERO + digit);
}

/// Appends the header of a `width` by `height` image to `out`.
pub fn push_header(out: &mut Vec<u8>, width: u32, height: u32)
    ensures
        final(out)@ == old(out)@ + header(width, height),
{
    out.push(80u8);
    out.push(51u8);
    out.push(NEWLINE);
    push_decimal(out, width);
    out.push(SPACE);
    push_decimal(out, height);
    out.push(NEWLINE);
    out.push(50u8);
    out.push(53u8);
    out.push(53u8);
    out.push(NEWLINE);
}

/// Appends the line of one pixel to `out`.
pub fn push_pixel(out: &mut Vec<u8>, pixel: Rgb)
    ensures
        final(out)@ == old(out)@ + pixel_line(pixel),
{
    push_decimal(out, pixel.0 as u32);
    out.push(SPACE);
    push_decimal(out, pixel.1 as u32);
    out.push(SPACE);
    push_decimal(out, pixel.2 as u32);
    out.push(NEWLINE);
}

/// The text of a `width` by `height` image whose pixels are `pixels`, in the
/// order in which they are to be written.
pub fn encode(width: u32, height: u32, pixels: &[Rgb]) -> (text: Vec<u8>)
    ensures
        text@ == image(width, height, pixels@),
{
    let mut text: Vec<u8> = Vec::new();
    push_header(&mut text, width, height);
    let mut i: usize = 0;
    while i < pixels.len()
        invariant
            i <= pixels.len(),
            text@ == header(width, height) + body(pixels@.take(i as int)),
        decreases pixels.len() - i,
    {
        push_pixel(&mut text, pixels[i]);
        assert(pixels@.take(i + 1).drop_last() =~= pixels@.take(i as int));
        i = i + 1;
    }
    assert(pixels@.take(i as int) =~= pixels@);
    text
}

/// A text without line feeds has no lines.
proof fn lemma_no_newline(text: Seq<u8>)
    requires
        forall|i: int| 0 <= i < text.len() ==> #[trigger] text[i] != NEWLINE,
    ensures
        lines(text) == 0,
    decreases text.len(),
{
    if text.len() > 0 {
        lemma_no_newline(text.drop_last());
    }
}

/// The lines of two texts add up when one follows the other.
proof fn lemma_lines_add(first: Seq<u8>, second: Seq<u8>)
    ensures
        lines(first + second) == lines(first) + lines(second),
    decreases second.len(),
{
    if second.len() > 0 {
        lemma_lines_add(first, second.drop_last());
        assert((first + second).drop_last() =~= first + second.drop_last());
    }
}

/// A line feed alone is one line.
proof fn lemma_feed_is_one()
    ensures
        lines(seq![NEWLINE]) == 1,
{
    let feed = seq![NEWLINE];
    assert(lines(feed.drop_last()) == 0);
}

/// A number in decimal is made of digits only.
proof fn lemma_decimal_digits(n: nat)
    ensures
        decimal(n).len() >= 1,
        forall|i: int| 0 <= i < decimal(n).len() ==> ZERO <= #[trigger] decimal(n)[i] <= ZERO + 9,
    decreases n,
{
    if n >= 10 {
        lemma_decimal_digits(n / 10);
    }
}

/// The line of a pixel is one line.
proof fn lemma_pixel_line_is_one(pixel: Rgb)
    ensures
        lines(pixel_line(pixel)) == 1,
{
    let red = decimal(pixel.0 as nat);
    let green = decimal(pixel.1 as nat);
    let blue = decimal(pixel.2 as nat);
    lemma_decimal_digits(pixel.0 as nat);
    lemma_decimal_digits(pixel.1 as nat);
    lemma_decimal_digits(pixel.2 as nat);
    let words = red + seq![SPACE] + green + seq![SPACE] + blue;
    lemma_no_newline(words);
    lemma_lines_add(words, seq![NEWLINE]);
    lemma_feed_is_one();
}

/// An image has three header lines and one line for each pixel.
pub proof fn lemma_image_lines(width: u32, height: u32, pixels: Seq<Rgb>)
    ensures
        lines(header(width, height)) == 3,
        lines(body(pixels)) == pixels.len(),
        lines(image(width, height, pixels)) == 3 + pixels.len(),
    decreases pixels.len(),
{
    let name = seq![80u8, 51u8];
    let size = decimal(width as nat) + seq![SPACE] + decimal(height as nat);
    let top = seq![50u8, 53u8, 53u8];
    let feed = seq![NEWLINE];
    lemma_decimal_digits(width as nat);
    lemma_decimal_digits(height as nat);
    lemma_no_newline(name);
    lemma_no_newline(size);
    lemma_no_newline(top);
    lemma_feed_is_one();
    lemma_lines_add(name, feed);
    lemma_lines_add(name + feed, size);
    lemma_lines_add(name + feed + size, feed);
    lemma_lines_add(name + feed + size + feed, top);
    lemma_lines_add(name + feed + size + feed + top, feed);
    assert(header(width, height) =~= name + feed + size + feed + top + feed);
    if pixels.len() > 0 {
        lemma_image_lines(width, height, pixels.drop_last());
        lemma_pixel_line_is_one(pixels.last());
        lemma_lines_add(body(pixels.drop_last()), pixel_line(pixels.last()));
    }
    lemma_lines_add(header(width, height), body(pixels));
}

} // verus!
