//! Filling a band of the image, pixel by pixel.

use vstd::prelude::*;

verus! {

/// The shade of a point that never escaped.
pub const BLACK: u8 = 0;

/// The shade of a point that escaped.
pub const WHITE: u8 = 255;

/// The shade of a point, given the iteration at which it escaped, if it did.
pub open spec fn shade_of(escaped: Option<u32>) -> u8 {
    if escaped is None {
        BLACK
    } else {
        WHITE
    }
}

/// The place of the pixel in column `column` of row `row` in a buffer that
/// holds rows of `width` pixels one after another.
pub open spec fn pixel_index(width: nat, column: nat, row: nat) -> nat {
    row * width + column
}

/// Whether `pixels` holds, for the pixel in column `column` of row `row`, the
/// shade of an escape time that `escape_time` can give for that pixel.
pub open spec fn is_rendered<F: Fn(usize, usize) -> Option<u32>>(
    pixels: Seq<u8>,
    width: usize,
    escape_time: F,
    column: usize,
    row: usize,
) -> bool {
    exists|escaped: Option<u32>|
        {
            &&& call_ensures(escape_time, (column, row), escaped)
            &&& pixels[pixel_index(width as nat, column as nat, row as nat) as int]
                == #[trigger] shade_of(escaped)
        }
}

/// Every pixel of an image has a place in its buffer.
pub proof fn lemma_pixel_index_bound(width: nat, height: nat, column: nat, row: nat)
    requires
        column < width,
        row < height,
    ensures
        pixel_index(width, column, row) < width * height,
{
    assert(row * width + column < width * height) by (nonlinear_arith)
        requires
            column < width,
            row < height,
    ;
}

/// Pixels keep in the buffer the order in which rows and columns are walked.
pub proof fn lemma_pixel_index_order(
    width: nat,
    column: nat,
    row: nat,
    later_column: nat,
    later_row: nat,
)
    requires
        column < width,
        later_column < width,
        row < later_row || (row == later_row && column < later_column),
    ensures
        pixel_index(width, column, row) < pixel_index(width, later_column, later_row),
{
    if row < later_row {
        assert(row * width + column < later_row * width + later_column) by (nonlinear_arith)
            requires
                column < width,
                row < later_row,
        ;
    }
}

/// Whether `escape_time` has one answer for each pixel.
pub open spec fn answers_in_one_way<F: Fn(usize, usize) -> Option<u32>>(escape_time: F) -> bool {
    forall|column: usize, row: usize, one: Option<u32>, other: Option<u32>|
        call_ensures(escape_time, (column, row), one) && call_ensures(
            escape_time,
            (column, row),
            other,
        ) ==> one == other
}

/// Whether `pixels` is a band of `bounds.0` columns and `bounds.1` rows that
/// holds, for each of its pixels, the shade of an escape time that
/// `escape_time` can give for it.
pub open spec fn is_rendering<F: Fn(usize, usize) -> Option<u32>>(
    pixels: Seq<u8>,
    bounds: (usize, usize),
    escape_time: F,
) -> bool {
    &&& pixels.len() == bounds.0 * bounds.1
    &&& forall|column: usize, row: usize|
        column < bounds.0 && row < bounds.1 ==> #[trigger] is_rendered(
            pixels,
            bounds.0,
            escape_time,
            column,
            row,
        )
}

/// Where `escape_time` has one answer for each pixel, a band has one
/// rendering: whenever and however often it is rendered, the shades are the
/// same.
pub proof fn lemma_rendering_unique<F: Fn(usize, usize) -> Option<u32>>(
    one: Seq<u8>,
    other: Seq<u8>,
    bounds: (usize, usize),
    escape_time: F,
)
    requires
        answers_in_one_way(escape_time),
        is_rendering(one, bounds, escape_time),
        is_rendering(other, bounds, escape_time),
    ensures
        one == other,
{
    let width = bounds.0 as int;
    let height = bounds.1 as int;
    assert forall|index: int| 0 <= index < one.len() implies one[index] == other[index] by {
        if width == 0 {
            assert(width * height == 0) by (nonlinear_arith)
                requires
                    width == 0,
            ;
        }
        let column = index % width;
        let row = index / width;
        vstd::arithmetic::div_mod::lemma_fundamental_div_mod(index, width);
        vstd::arithmetic::div_mod::lemma_mod_bound(index, width);
        assert(0 <= row < height) by (nonlinear_arith)
            requires
                index == width * row + column,
                0 <= column < width,
                0 <= index < width * height,
        ;
        assert(row * width + column == index) by (nonlinear_arith)
            requires
                index == width * row + column,
        ;
        assert(is_rendered(one, bounds.0, escape_time, column as usize, row as usize));
        assert(is_rendered(other, bounds.0, escape_time, column as usize, row as usize));
    }
    assert(one =~= other);
}

/// The shade of a point, given the iteration at which it escaped, if it did.
pub fn shade(escaped: Option<u32>) -> (value: u8)
    ensures
        value == shade_of(escaped),
{
    match escaped {
        None => BLACK,
        Some(_) => WHITE,
    }
}

/// Fills `pixels`, a band of `bounds.0` columns and `bounds.1` rows, with the
/// shades of its points: for each pixel, row after row, `escape_time` is
/// asked with the pixel's column and row, and the shade of its answer is
/// written at the pixel's place.
pub fn render<F: Fn(usize, usize) -> Option<u32>>(
    pixels: &mut [u8],
    bounds: (usize, usize),
    escape_time: F,
)
    requires
        old(pixels)@.len() == bounds.0 * bounds.1,
        forall|column: usize, row: usize|
            column < bounds.0 && row < bounds.1 ==> call_requires(escape_time, (column, row)),
    ensures
        is_rendering(final(pixels)@, bounds, escape_time),
{
    let width: usize = bounds.0;
    let height: usize = bounds.1;
    let length: usize = pixels.len();
    let mut row: usize = 0;
    while row < height
        invariant
            width == bounds.0,
            height == bounds.1,
            row <= height,
            pixels@.len() == width * height,
            pixels@.len() == length,
            forall|column: usize, row: usize|
                column < bounds.0 && row < bounds.1 ==> call_requires(escape_time, (column, row)),
            forall|c: usize, r: usize|
                c < width && r < row ==> #[trigger] is_rendered(pixels@, width, escape_time, c, r),
        decreases height - row,
    {
        let mut column: usize = 0;
        while column < width
            invariant
                width == bounds.0,
                height == bounds.1,
                row < height,
                column <= width,
                pixels@.len() == width * height,
                pixels@.len() == length,
                forall|column: usize, row: usize|
                    column < bounds.0 && row < bounds.1 ==> call_requires(
                        escape_time,
                        (column, row),
                    ),
                forall|c: usize, r: usize|
                    c < width && (r < row || (r == row && c < column)) ==> #[trigger] is_rendered(
                        pixels@,
                        width,
                        escape_time,
                        c,
                        r,
                    ),
            decreases width - column,
        {
            proof {
                lemma_pixel_index_bound(width as nat, height as nat, column as nat, row as nat);
            }
            let ghost before = pixels@;
            let escaped = escape_time(column, row);
            let index: usize = row * width + column;
            pixels[index] = shade(escaped);
            proof {
                assert forall|c: usize, r: usize|
                    c < width && (r < row || (r == row && c < column + 1))
                    implies #[trigger] is_rendered(
                    pixels@,
                    width,
                    escape_time,
                    c,
                    r,
                ) by {
                    if r == row && c == column {
                        assert(pixels@[index as int] == shade_of(escaped));
                    } else {
                        lemma_pixel_index_order(
                            width as nat,
                            c as nat,
                            r as nat,
                            column as nat,
                            row as nat,
                        );
                        assert(is_rendered(before, width, escape_time, c, r));
                        let earlier = choose|e: Option<u32>|
                            call_ensures(escape_time, (c, r), e) && before[pixel_index(
                                width as nat,
                                c as nat,
                                r as nat,
                            ) as int] == #[trigger] shade_of(e);
                        assert(pixels@[pixel_index(width as nat, c as nat, r as nat) as int]
                            == shade_of(earlier));
                    }
                }
            }
            column += 1;
        }
        row += 1;
    }
}

} // verus!
