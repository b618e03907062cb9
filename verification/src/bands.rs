//! The division of an image's rows into horizontal bands, one for each
//! worker that renders.

use vstd::prelude::*;
use crate::render::{is_rendered, is_rendering, pixel_index, shade_of};

verus! {

/// A run of consecutive rows of an image: `height` rows from row `top` on.
#[derive(Clone, Copy, Debug, PartialEq, Eq, Structural)]
pub struct Band {
    /// The first row of the band.
    pub top: usize,
    /// The number of rows in the band.
    pub height: usize,
}

/// The number of rows given to each band but the last: the rows of a fair
/// share, rounded down, and one more.
pub open spec fn rows_per_band_of(height: nat, workers: nat) -> nat
    recommends
        workers > 0,
{
    height / workers + 1
}

/// The number of bands: as many strides of `rows_per_band_of` rows as it
/// takes to reach `height`.
pub open spec fn band_count(height: nat, workers: nat) -> nat
    recommends
        workers > 0,
{
    let rows = rows_per_band_of(height, workers);
    ((height + rows - 1) / (rows as int)) as nat
}

/// The first row of band `index`.
pub open spec fn band_top(height: nat, workers: nat, index: nat) -> nat
    recommends
        workers > 0,
{
    index * rows_per_band_of(height, workers)
}

/// The number of rows of band `index`: a full stride, or what is left of the
/// image below the band's first row.
pub open spec fn band_height(height: nat, workers: nat, index: nat) -> nat
    recommends
        workers > 0,
        index < band_count(height, workers),
{
    let rows = rows_per_band_of(height, workers);
    let top = band_top(height, workers, index);
    if height - top < rows {
        (height - top) as nat
    } else {
        rows
    }
}

/// Whether band `index` holds `row`.
pub open spec fn band_holds_row(height: nat, workers: nat, index: nat, row: nat) -> bool
    recommends
        workers > 0,
        index < band_count(height, workers),
{
    band_top(height, workers, index) <= row < band_top(height, workers, index) + band_height(
        height,
        workers,
        index,
    )
}

impl Band {
    /// The band that is number `index` of an image of `height` rows divided
    /// for `workers` workers.
    pub open spec fn is_band(self, height: nat, workers: nat, index: nat) -> bool {
        &&& self.top == band_top(height, workers, index)
        &&& self.height == band_height(height, workers, index)
    }
}

/// The strides of all bands but the last end inside the image, and those of
/// all bands reach its end.
pub proof fn lemma_band_count_bounds(height: nat, workers: nat)
    requires
        workers > 0,
    ensures
        band_count(height, workers) * rows_per_band_of(height, workers) >= height,
        height > 0 ==> (band_count(height, workers) - 1) * rows_per_band_of(height, workers)
            < height,
        height == 0 ==> band_count(height, workers) == 0,
        band_count(height, workers) <= workers,
{
    let rows = rows_per_band_of(height, workers) as int;
    let total = height + rows - 1;
    let count = total / rows;
    assert(rows >= 1);
    vstd::arithmetic::div_mod::lemma_fundamental_div_mod(total, rows);
    vstd::arithmetic::div_mod::lemma_mod_bound(total, rows);
    vstd::arithmetic::div_mod::lemma_fundamental_div_mod(height as int, workers as int);
    vstd::arithmetic::div_mod::lemma_mod_bound(height as int, workers as int);
    let share = height as int / workers as int;
    assert(rows == share + 1);
    assert(count >= 0) by (nonlinear_arith)
        requires
            total >= 0,
            rows >= 1,
            count == total / rows,
    ;
    assert(count * rows == rows * count) by (nonlinear_arith);
    assert((count - 1) * rows == rows * count - rows) by (nonlinear_arith);
    if height == 0 {
        assert(count == 0) by (nonlinear_arith)
            requires
                total == rows * count + total % rows,
                0 <= total % rows < rows,
                total == rows - 1,
                count >= 0,
        ;
    }
    // rows * workers > height
    assert(rows * workers > height) by (nonlinear_arith)
        requires
            height == workers * share + (height as int % workers as int),
            0 <= (height as int % workers as int) < workers,
            rows == share + 1,
    ;
    assert(count <= workers) by (nonlinear_arith)
        requires
            rows * count - rows < height,
            rows * workers > height,
            rows >= 1,
            count >= 0,
            workers > 0,
    ;
}

/// The index of the band that holds `row`.
pub open spec fn band_of_row(height: nat, workers: nat, row: nat) -> nat
    recommends
        workers > 0,
        row < height,
{
    row / rows_per_band_of(height, workers)
}

/// The bands divide the rows of the image: every band lies inside the image
/// and is not empty, every row of the image is in the band that
/// `band_of_row` names, and in no other.
pub proof fn lemma_bands_partition_rows(height: nat, workers: nat)
    requires
        workers > 0,
    ensures
        forall|index: nat|
            index < band_count(height, workers) ==> {
                &&& #[trigger] band_height(height, workers, index) > 0
                &&& band_top(height, workers, index) + band_height(height, workers, index)
                    <= height
            },
        forall|row: nat|
            row < height ==> {
                &&& #[trigger] band_of_row(height, workers, row) < band_count(height, workers)
                &&& band_holds_row(height, workers, band_of_row(height, workers, row), row)
            },
        forall|index: nat, row: nat|
            index < band_count(height, workers) && #[trigger] band_holds_row(
                height,
                workers,
                index,
                row,
            ) ==> row < height && index == band_of_row(height, workers, row),
{
    let rows = rows_per_band_of(height, workers) as int;
    let count = band_count(height, workers) as int;
    lemma_band_count_bounds(height, workers);
    assert forall|index: nat| index < count implies {
        &&& #[trigger] band_height(height, workers, index) > 0
        &&& band_top(height, workers, index) + band_height(height, workers, index) <= height
    } by {
        assert(index * rows <= (count - 1) * rows) by (nonlinear_arith)
            requires
                index <= count - 1,
                rows >= 1,
        ;
    }
    assert forall|row: nat| row < height implies {
        &&& #[trigger] band_of_row(height, workers, row) < band_count(height, workers)
        &&& band_holds_row(height, workers, band_of_row(height, workers, row), row)
    } by {
        let index = row as int / rows;
        vstd::arithmetic::div_mod::lemma_fundamental_div_mod(row as int, rows);
        vstd::arithmetic::div_mod::lemma_mod_bound(row as int, rows);
        assert(index * rows == rows * index) by (nonlinear_arith);
        assert(index >= 0) by (nonlinear_arith)
            requires
                row >= 0,
                rows >= 1,
                index == row as int / rows,
        ;
        assert(index < count) by (nonlinear_arith)
            requires
                rows * index <= row,
                row < height,
                height <= count * rows,
                rows >= 1,
        ;
    }
    assert forall|index: nat, row: nat|
        index < band_count(height, workers) && #[trigger] band_holds_row(
            height,
            workers,
            index,
            row,
        ) implies row < height && index == band_of_row(height, workers, row) by {
        assert(index * rows <= (count - 1) * rows) by (nonlinear_arith)
            requires
                index <= count - 1,
                rows >= 1,
        ;
        let inside = row - index * rows;
        assert(0 <= inside < rows);
        assert(row == index * rows + inside);
        vstd::arithmetic::div_mod::lemma_fundamental_div_mod_converse(
            row as int,
            rows,
            index as int,
            inside,
        );
    }
}

/// A band that starts inside the image is followed by another, one stride
/// further down, unless it reaches the end of the image: then it is the last.
proof fn lemma_band_step(height: nat, workers: nat, index: nat)
    requires
        workers > 0,
        band_top(height, workers, index) < height,
    ensures
        band_top(height, workers, index + 1) == band_top(height, workers, index)
            + rows_per_band_of(height, workers),
        band_top(height, workers, index) + band_height(height, workers, index) == height
            ==> index + 1 == band_count(height, workers),
{
    let rows = rows_per_band_of(height, workers) as int;
    let count = band_count(height, workers) as int;
    lemma_band_count_bounds(height, workers);
    assert((index + 1) * rows == index * rows + rows) by (nonlinear_arith);
    if band_top(height, workers, index) + band_height(height, workers, index) == height {
        // `index` full strides end inside the image and one more reaches its end
        assert(index + 1 == count) by (nonlinear_arith)
            requires
                index * rows < height,
                height <= index * rows + rows,
                (count - 1) * rows < height,
                height <= count * rows,
                rows >= 1,
        ;
    }
}

/// The number of rows given to each band but the last.
pub fn rows_per_band(height: usize, workers: usize) -> (rows: usize)
    requires
        workers > 0,
        height / workers + 1 <= usize::MAX,
    ensures
        rows == rows_per_band_of(height as nat, workers as nat),
{
    height / workers + 1
}

/// The bands of an image of `height` rows divided for `workers` workers, from
/// the top of the image down.
pub fn plan_bands(height: usize, workers: usize) -> (bands: Vec<Band>)
    requires
        workers > 0,
        height / workers + 1 <= usize::MAX,
    ensures
        bands@.len() == band_count(height as nat, workers as nat),
        bands@.len() <= workers,
        forall|index: int|
            0 <= index < bands@.len() ==> (#[trigger] bands@[index]).is_band(
                height as nat,
                workers as nat,
                index as nat,
            ),
{
    let rows: usize = rows_per_band(height, workers);
    let mut bands: Vec<Band> = Vec::new();
    let mut top: usize = 0;
    proof {
        lemma_band_count_bounds(height as nat, workers as nat);
        assert(0 * rows == 0);
    }
    while top < height
        invariant
            workers > 0,
            rows == rows_per_band_of(height as nat, workers as nat),
            top <= height,
            top < height ==> top == bands@.len() * rows,
            top == height ==> bands@.len() == band_count(height as nat, workers as nat),
            forall|index: int|
                0 <= index < bands@.len() ==> (#[trigger] bands@[index]).is_band(
                    height as nat,
                    workers as nat,
                    index as nat,
                ),
        decreases height - top,
    {
        let left: usize = height - top;
        let band_height: usize = if left < rows {
            left
        } else {
            rows
        };
        proof {
            lemma_band_step(height as nat, workers as nat, bands@.len());
        }
        bands.push(Band { top, height: band_height });
        top += band_height;
    }
    bands
}

/// The pixels of band `index` among `pixels`, the buffer of an image of
/// `bounds.0` by `bounds.1` pixels divided for `workers` workers: the rows of
/// the band, one after another.
pub open spec fn band_pixels(
    pixels: Seq<u8>,
    bounds: (usize, usize),
    workers: usize,
    index: nat,
) -> Seq<u8>
    recommends
        workers > 0,
        pixels.len() == bounds.0 * bounds.1,
        index < band_count(bounds.1 as nat, workers as nat),
{
    let top = band_top(bounds.1 as nat, workers as nat, index);
    let height = band_height(bounds.1 as nat, workers as nat, index);
    pixels.subrange(top * bounds.0, (top + height) * bounds.0)
}

/// The first `count` bands of `pixels`, from the top of the image down.
pub open spec fn leading_bands(
    pixels: Seq<u8>,
    bounds: (usize, usize),
    workers: usize,
    count: nat,
) -> Seq<Seq<u8>>
    recommends
        workers > 0,
        pixels.len() == bounds.0 * bounds.1,
        count <= band_count(bounds.1 as nat, workers as nat),
{
    Seq::new(count, |index: int| band_pixels(pixels, bounds, workers, index as nat))
}

/// A pixel of a band is the pixel of the image in the same column, as many
/// rows below the band's first row as it is below the top of the band.
pub proof fn lemma_band_pixel(
    pixels: Seq<u8>,
    bounds: (usize, usize),
    workers: usize,
    index: nat,
    column: nat,
    row: nat,
)
    requires
        workers > 0,
        pixels.len() == bounds.0 * bounds.1,
        index < band_count(bounds.1 as nat, workers as nat),
        column < bounds.0,
        row < band_height(bounds.1 as nat, workers as nat, index),
    ensures
        band_pixels(pixels, bounds, workers, index).len() == bounds.0 * band_height(
            bounds.1 as nat,
            workers as nat,
            index,
        ),
        pixel_index(bounds.0 as nat, column, row) < band_pixels(
            pixels,
            bounds,
            workers,
            index,
        ).len(),
        pixel_index(
            bounds.0 as nat,
            column,
            band_top(bounds.1 as nat, workers as nat, index) + row,
        ) < pixels.len(),
        band_pixels(pixels, bounds, workers, index)[pixel_index(
            bounds.0 as nat,
            column,
            row,
        ) as int] == pixels[pixel_index(
            bounds.0 as nat,
            column,
            band_top(bounds.1 as nat, workers as nat, index) + row,
        ) as int],
{
    let width = bounds.0 as int;
    let height = bounds.1 as int;
    let top = band_top(bounds.1 as nat, workers as nat, index) as int;
    let rows = band_height(bounds.1 as nat, workers as nat, index) as int;
    lemma_bands_partition_rows(bounds.1 as nat, workers as nat);
    assert(top + rows <= height);
    assert((top + rows) * width == top * width + rows * width) by (nonlinear_arith);
    assert((top + rows) * width <= width * height) by (nonlinear_arith)
        requires
            top + rows <= height,
            width >= 0,
    ;
    assert(rows * width == width * rows) by (nonlinear_arith);
    assert(row * width + column < rows * width) by (nonlinear_arith)
        requires
            0 <= column < width,
            0 <= row < rows,
    ;
    assert((top + row) * width + column == top * width + (row * width + column))
        by (nonlinear_arith);
    assert(top * width >= 0) by (nonlinear_arith)
        requires
            top >= 0,
            width >= 0,
    ;
}

/// The bands of a buffer, one after another, are the buffer.
pub proof fn lemma_bands_join(pixels: Seq<u8>, bounds: (usize, usize), workers: usize)
    requires
        workers > 0,
        pixels.len() == bounds.0 * bounds.1,
    ensures
        leading_bands(
            pixels,
            bounds,
            workers,
            band_count(bounds.1 as nat, workers as nat),
        ).flatten() == pixels,
{
    let count = band_count(bounds.1 as nat, workers as nat);
    lemma_leading_bands_join(pixels, bounds, workers, count);
    lemma_band_count_bounds(bounds.1 as nat, workers as nat);
    lemma_bands_partition_rows(bounds.1 as nat, workers as nat);
    let joined = leading_bands(pixels, bounds, workers, count).flatten();
    if count == 0 {
        assert(bounds.0 * bounds.1 == 0) by (nonlinear_arith)
            requires
                bounds.1 == 0,
        ;
        assert(joined =~= pixels);
    } else {
        let last = (count - 1) as nat;
        let full = rows_per_band_of(bounds.1 as nat, workers as nat) as int;
        assert(count * full == last * full + full) by (nonlinear_arith)
            requires
                last == count - 1,
        ;
        assert(band_top(bounds.1 as nat, workers as nat, last) + band_height(
            bounds.1 as nat,
            workers as nat,
            last,
        ) == bounds.1);
        assert(bounds.1 * bounds.0 == bounds.0 * bounds.1) by (nonlinear_arith);
        assert(joined =~= pixels);
    }
}

/// The first `count` bands of a buffer, one after another, are the buffer
/// down to the end of the last of them.
proof fn lemma_leading_bands_join(
    pixels: Seq<u8>,
    bounds: (usize, usize),
    workers: usize,
    count: nat,
)
    requires
        workers > 0,
        pixels.len() == bounds.0 * bounds.1,
        count <= band_count(bounds.1 as nat, workers as nat),
    ensures
        count == 0 ==> leading_bands(pixels, bounds, workers, count).flatten() == Seq::<
            u8,
        >::empty(),
        count > 0 ==> leading_bands(pixels, bounds, workers, count).flatten()
            == pixels.subrange(
            0,
            (band_top(bounds.1 as nat, workers as nat, (count - 1) as nat) + band_height(
                bounds.1 as nat,
                workers as nat,
                (count - 1) as nat,
            )) * bounds.0,
        ),
    decreases count,
{
    let width = bounds.0 as int;
    let height = bounds.1 as int;
    if count > 0 {
        let last = (count - 1) as nat;
        let before = leading_bands(pixels, bounds, workers, last);
        let band = band_pixels(pixels, bounds, workers, last);
        let top = band_top(bounds.1 as nat, workers as nat, last) as int;
        let rows = band_height(bounds.1 as nat, workers as nat, last) as int;
        lemma_leading_bands_join(pixels, bounds, workers, last);
        lemma_bands_partition_rows(bounds.1 as nat, workers as nat);
        assert(leading_bands(pixels, bounds, workers, count) =~= before.push(band));
        before.lemma_flatten_push(band);
        assert(0 <= top * width <= (top + rows) * width <= width * height) by (nonlinear_arith)
            requires
                0 <= top,
                0 <= rows,
                top + rows <= height,
                width >= 0,
        ;
        if last > 0 {
            let full = rows_per_band_of(bounds.1 as nat, workers as nat) as int;
            let earlier = (last - 1) as nat;
            assert(band_top(bounds.1 as nat, workers as nat, earlier) + full == top)
                by (nonlinear_arith)
                requires
                    band_top(bounds.1 as nat, workers as nat, earlier) == earlier * full,
                    top == last * full,
                    earlier == last - 1,
            ;
            assert(band_height(bounds.1 as nat, workers as nat, earlier) == full);
            assert(before.flatten() == pixels.subrange(0, top * width));
        } else {
            assert(top == 0);
            assert(top * width == 0) by (nonlinear_arith)
                requires
                    top == 0,
            ;
            assert(before.flatten() =~= Seq::<u8>::empty());
        }
        assert(band == pixels.subrange(top * width, (top + rows) * width));
        assert(before.flatten() =~= pixels.subrange(0, top * width));
        assert(before.flatten() + band =~= pixels.subrange(0, (top + rows) * width));
    } else {
        assert(leading_bands(pixels, bounds, workers, count).flatten() =~= Seq::<u8>::empty());
    }
}

/// How an image is divided into bands does not change what it shows: where
/// each band is rendered by an escape time, and what that gives for a pixel
/// of the band an escape time for the image can give for the same pixel of
/// the image, the image is rendered by the latter.
pub proof fn lemma_bands_render_image<F, G>(
    image: Seq<u8>,
    bounds: (usize, usize),
    workers: usize,
    band_escape_times: Seq<F>,
    escape_time: G,
) where F: Fn(usize, usize) -> Option<u32>, G: Fn(usize, usize) -> Option<u32>
    requires
        workers > 0,
        image.len() == bounds.0 * bounds.1,
        band_escape_times.len() == band_count(bounds.1 as nat, workers as nat),
        forall|index: int|
            0 <= index < band_escape_times.len() ==> is_rendering(
                band_pixels(image, bounds, workers, index as nat),
                (bounds.0, band_height(bounds.1 as nat, workers as nat, index as nat) as usize),
                #[trigger] band_escape_times[index],
            ),
        forall|index: int, column: usize, row: usize, escaped: Option<u32>|
            0 <= index < band_escape_times.len() && column < bounds.0 && row < band_height(
                bounds.1 as nat,
                workers as nat,
                index as nat,
            ) && #[trigger] call_ensures(band_escape_times[index], (column, row), escaped)
                ==> call_ensures(
                escape_time,
                (
                    column,
                    (band_top(bounds.1 as nat, workers as nat, index as nat) + row) as usize,
                ),
                escaped,
            ),
    ensures
        is_rendering(image, bounds, escape_time),
{
    let height = bounds.1 as nat;
    let lanes = workers as nat;
    lemma_bands_partition_rows(height, lanes);
    assert forall|column: usize, row: usize|
        column < bounds.0 && row < bounds.1 implies #[trigger] is_rendered(
        image,
        bounds.0,
        escape_time,
        column,
        row,
    ) by {
        let index = band_of_row(height, lanes, row as nat);
        assert(band_holds_row(height, lanes, index, row as nat));
        let top = band_top(height, lanes, index);
        let inside = (row - top) as usize;
        let band = band_pixels(image, bounds, workers, index);
        let band_bounds = (bounds.0, band_height(height, lanes, index) as usize);
        assert(is_rendering(band, band_bounds, band_escape_times[index as int]));
        assert(is_rendered(band, bounds.0, band_escape_times[index as int], column, inside));
        let escaped = choose|escaped: Option<u32>|
            {
                &&& call_ensures(band_escape_times[index as int], (column, inside), escaped)
                &&& band[pixel_index(bounds.0 as nat, column as nat, inside as nat) as int]
                    == #[trigger] shade_of(escaped)
            };
        lemma_band_pixel(image, bounds, workers, index, column as nat, inside as nat);
        assert(call_ensures(escape_time, (column, (top + inside) as usize), escaped));
        assert(image[pixel_index(bounds.0 as nat, column as nat, row as nat) as int]
            == shade_of(escaped));
    }
}

/// Divides `pixels`, the buffer of an image of `bounds.0` by `bounds.1`
/// pixels, into its bands for `workers` workers, from the top of the image
/// down. Each band can be written without a look at the others; when all of
/// them have been let go, the buffer holds what they held at last, one after
/// another.
pub fn split_bands<'a>(pixels: &'a mut [u8], bounds: (usize, usize), workers: usize) -> (chunks:
    Vec<&'a mut [u8]>)
    requires
        workers > 0,
        bounds.1 / workers + 1 <= usize::MAX,
        old(pixels)@.len() == bounds.0 * bounds.1,
    ensures
        chunks@.len() == band_count(bounds.1 as nat, workers as nat),
        forall|index: int|
            #![trigger chunks@[index]]
            0 <= index < chunks@.len() ==> chunks@[index]@ == band_pixels(
                old(pixels)@,
                bounds,
                workers,
                index as nat,
            ),
        final(pixels)@ == Seq::new(chunks@.len(), |index: int| final(chunks@[index])@).flatten(),
{
    let width: usize = bounds.0;
    let height: usize = bounds.1;
    let length: usize = pixels.len();
    let rows: usize = rows_per_band(height, workers);
    let ghost before = pixels@;
    let ghost after = final(pixels)@;
    let mut chunks: Vec<&'a mut [u8]> = Vec::new();
    let mut rest: &'a mut [u8] = pixels;
    let mut top: usize = 0;
    proof {
        lemma_band_count_bounds(height as nat, workers as nat);
        assert(0 * rows == 0);
        assert(0 * width == 0);
        assert(before.subrange(0, length as int) =~= before);
        assert(Seq::new(chunks@.len(), |index: int| final(chunks@[index])@) =~= Seq::<
            Seq<u8>,
        >::empty());
        assert(after =~= Seq::new(chunks@.len(), |index: int| final(chunks@[index])@).flatten()
            + final(rest)@);
    }
    while top < height
        invariant
            workers > 0,
            width == bounds.0,
            height == bounds.1,
            length == width * height,
            before.len() == length,
            rows == rows_per_band_of(height as nat, workers as nat),
            top <= height,
            top < height ==> top == chunks@.len() * rows,
            top == height ==> chunks@.len() == band_count(height as nat, workers as nat),
            top * width <= length,
            rest@ == before.subrange(top * width, length as int),
            after == Seq::new(chunks@.len(), |index: int| final(chunks@[index])@).flatten()
                + final(rest)@,
            forall|index: int|
                #![trigger chunks@[index]]
                0 <= index < chunks@.len() ==> chunks@[index]@ == band_pixels(
                    before,
                    bounds,
                    workers,
                    index as nat,
                ),
        decreases height - top,
    {
        let left: usize = height - top;
        let band_rows: usize = if left < rows {
            left
        } else {
            rows
        };
        proof {
            assert(top * width + band_rows * width == (top + band_rows) * width)
                by (nonlinear_arith);
            assert((top + band_rows) * width <= height * width) by (nonlinear_arith)
                requires
                    top + band_rows <= height,
            ;
            assert(height * width == width * height) by (nonlinear_arith);
        }
        let count: usize = band_rows * width;
        let whole = rest;
        let ghost earlier = Seq::new(chunks@.len(), |index: int| final(chunks@[index])@);
        let (head, tail) = whole.split_at_mut(count);
        proof {
            let done = chunks@.len();
            lemma_band_step(height as nat, workers as nat, done);
            assert(head@ =~= band_pixels(before, bounds, workers, done as nat));
            assert(tail@ =~= before.subrange((top + band_rows) * width, length as int));
        }
        let ghost last = final(head)@;
        chunks.push(head);
        rest = tail;
        top += band_rows;
        proof {
            assert(Seq::new(chunks@.len(), |index: int| final(chunks@[index])@) =~= earlier.push(
                last,
            ));
            earlier.lemma_flatten_push(last);
            assert(after =~= Seq::new(
                chunks@.len(),
                |index: int| final(chunks@[index])@,
            ).flatten() + final(rest)@);
        }
    }
    proof {
        assert(top * width == length) by (nonlinear_arith)
            requires
                top == height,
                length == width * height,
        ;
        assert(rest@.len() == 0);
        assert(final(rest)@.len() == 0);
        assert(after =~= Seq::new(chunks@.len(), |index: int| final(chunks@[index])@).flatten());
    }
    chunks
}

} // verus!
