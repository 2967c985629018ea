//! Cutting a part out of a picture and scaling it.

use crate::bytes::copy_bytes;
use crate::images::decode::{whole, Failure, ImageFailure, Picture, PictureValue};
use crate::pdf::{full_region, Region};
use crate::text::{decimal_text, owned, push_decimal, push_str, push_wide_decimal};
use vstd::prelude::*;

verus! {

/// What `image::imageops::resize` makes of a picture with the Catmull-Rom
/// filter, at a new width and height.
pub uninterp spec fn resampled(picture: PictureValue, width: u32, height: u32) -> Seq<u8>;

/// `image::imageops::resize` over a view of the pixels, with the Catmull-Rom
/// filter. The pixels that it gives are those of the new size.
#[verifier::external_body]
fn resample(picture: &Picture, width: u32, height: u32) -> (pixels: Vec<u8>)
    requires
        whole(picture@),
        picture.width > 0,
        picture.height > 0,
        picture.width * height * 16 <= isize::MAX,
        width * height * 4 <= isize::MAX,
    ensures
        pixels@ == resampled(picture@, width, height),
        pixels@.len() == width * height * 4,
{
    let view: image::ImageBuffer<image::Rgba<u8>, &[u8]> =
        image::ImageBuffer::from_raw(picture.width, picture.height, picture.pixels.as_slice())
            .expect("a whole picture");
    let filter = image::imageops::FilterType::CatmullRom;
    image::imageops::resize(&view, width, height, filter).into_raw()
}

/// A part of a picture, in pixels.
#[derive(Debug, Clone, Copy, PartialEq, Eq, Structural)]
pub struct CropBox {
    pub x: u32,
    pub y: u32,
    pub width: u32,
    pub height: u32,
}

/// So many millionths of a length, rounded to the nearest.
pub open spec fn share_of(millionths: int, length: int) -> int {
    (millionths * length + 500_000) / 1_000_000
}

/// A number, moved into a range.
pub open spec fn between(n: int, low: int, high: int) -> int {
    if n < low {
        low
    } else if n > high {
        high
    } else {
        n
    }
}

/// The pixels that a part of a page names, of which there is at least one each
/// way.
pub open spec fn crop_of(width: int, height: int, region: Region) -> (int, int, int, int) {
    let x = between(share_of(region.x as int, width), 0, width - 1);
    let y = between(share_of(region.y as int, height), 0, height - 1);
    (
        x,
        y,
        between(share_of(region.width as int, width), 1, width - x),
        between(share_of(region.height as int, height), 1, height - y),
    )
}

fn share(millionths: u32, length: u32) -> (out: u64)
    ensures
        out == share_of(millionths as int, length as int),
{
    assert(0 <= millionths * length <= 0xffff_ffff * 0xffff_ffff) by (nonlinear_arith)
        requires
            0 <= millionths <= 0xffff_ffff,
            0 <= length <= 0xffff_ffff,
    ;
    (millionths as u64 * length as u64 + 500_000) / 1_000_000
}

fn clamp(n: u64, low: u32, high: u32) -> (out: u32)
    requires
        low <= high,
    ensures
        out == between(n as int, low as int, high as int),
{
    if n < low as u64 {
        low
    } else if n > high as u64 {
        high
    } else {
        n as u32
    }
}

/// The pixels that a part of a page names.
pub fn crop_view(width: u32, height: u32, region: Region) -> (crop: CropBox)
    requires
        width > 0,
        height > 0,
    ensures
        (crop.x as int, crop.y as int, crop.width as int, crop.height as int) == crop_of(
            width as int,
            height as int,
            region,
        ),
        crop.width > 0,
        crop.height > 0,
        crop.x + crop.width <= width,
        crop.y + crop.height <= height,
{
    let x: u32 = clamp(share(region.x, width), 0, width - 1);
    let y: u32 = clamp(share(region.y, height), 0, height - 1);
    let w: u32 = clamp(share(region.width, width), 1, width - x);
    let h: u32 = clamp(share(region.height, height), 1, height - y);
    CropBox { x, y, width: w, height: h }
}

/// One row of a part of a picture.
pub open spec fn crop_row(picture: PictureValue, crop: CropBox, row: int) -> Seq<u8> {
    let start = ((crop.y + row) * picture.width + crop.x) * 4;
    picture.pixels.subrange(start, start + crop.width * 4)
}

/// The first `n` rows of a part of a picture.
pub open spec fn crop_rows(picture: PictureValue, crop: CropBox, n: int) -> Seq<u8>
    decreases n,
{
    if n <= 0 {
        Seq::empty()
    } else {
        crop_rows(picture, crop, n - 1) + crop_row(picture, crop, n - 1)
    }
}

/// A part of a picture, as a picture.
pub open spec fn cropped(picture: PictureValue, crop: CropBox) -> PictureValue {
    PictureValue {
        width: crop.width,
        height: crop.height,
        pixels: crop_rows(picture, crop, crop.height as int),
    }
}

proof fn lemma_row_fits(picture: PictureValue, crop: CropBox, row: int)
    requires
        whole(picture),
        crop.x + crop.width <= picture.width,
        crop.y + crop.height <= picture.height,
        0 <= row < crop.height,
    ensures
        0 <= ((crop.y + row) * picture.width + crop.x) * 4,
        ((crop.y + row) * picture.width + crop.x) * 4 + crop.width * 4 <= picture.pixels.len(),
        crop_row(picture, crop, row).len() == crop.width * 4,
{
    let w = picture.width as int;
    let line = crop.y + row;
    assert(0 <= line * w) by (nonlinear_arith)
        requires
            0 <= line,
            0 <= w,
    ;
    assert((line + 1) * w <= picture.height * w) by (nonlinear_arith)
        requires
            line + 1 <= picture.height,
            0 <= w,
    ;
    assert((line + 1) * w == line * w + w) by (nonlinear_arith);
    assert(picture.width * picture.height == picture.height * w) by (nonlinear_arith)
        requires
            w == picture.width,
    ;
}

/// Cuts a part out of a picture.
pub fn crop(picture: &Picture, part: CropBox) -> (out: Picture)
    requires
        whole(picture@),
        part.x + part.width <= picture.width,
        part.y + part.height <= picture.height,
    ensures
        out@ == cropped(picture@, part),
        whole(out@),
{
    let mut pixels: Vec<u8> = Vec::new();
    let mut row: u32 = 0;
    let length: usize = picture.pixels.len();
    while row < part.height
        invariant
            row <= part.height,
            whole(picture@),
            length == picture.pixels@.len(),
            part.x + part.width <= picture.width,
            part.y + part.height <= picture.height,
            pixels@ == crop_rows(picture@, part, row as int),
            pixels@.len() == row * (part.width * 4),
        decreases part.height - row,
    {
        proof {
            lemma_row_fits(picture@, part, row as int);
            let line = part.y + row;
            assert(0 <= line * picture.width) by (nonlinear_arith)
                requires
                    0 <= line,
                    0 <= picture.width,
            ;
        }
        let ghost first = ((part.y + row) * picture.width + part.x) * 4;
        let start: usize = ((part.y + row) as usize * picture.width as usize + part.x as usize) * 4;
        assert(start == first);
        let end: usize = start + part.width as usize * 4;
        let ghost before = pixels@;
        let mut at: usize = start;
        while at < end
            invariant
                start <= at <= end,
                end <= length,
                length == picture.pixels@.len(),
                pixels@ == before + picture.pixels@.subrange(start as int, at as int),
            decreases end - at,
        {
            pixels.push(picture.pixels[at]);
            assert(pixels@ =~= before + picture.pixels@.subrange(start as int, at + 1));
            at += 1;
        }
        proof {
            assert(pixels@ == crop_rows(picture@, part, row + 1));
            assert((row + 1) * (part.width * 4) == row * (part.width * 4) + part.width * 4)
                by (nonlinear_arith);
        }
        row += 1;
    }
    proof {
        assert(part.height * (part.width * 4) == part.width * part.height * 4)
            by (nonlinear_arith);
    }
    Picture { width: part.width, height: part.height, pixels }
}

/// A picture at a new size.
pub open spec fn at_size(picture: PictureValue, width: u32, height: u32) -> Seq<u8> {
    if picture.width == width && picture.height == height {
        picture.pixels
    } else {
        resampled(picture, width, height)
    }
}

/// The frame that a part of a picture gives.
pub open spec fn frame_of(picture: PictureValue, region: Region, width: u32, height: u32) -> Seq<u8> {
    if region == full_region() {
        at_size(picture, width, height)
    } else {
        let (x, y, w, h) = crop_of(picture.width as int, picture.height as int, region);
        at_size(
            cropped(
                picture,
                CropBox { x: x as u32, y: y as u32, width: w as u32, height: h as u32 },
            ),
            width,
            height,
        )
    }
}

fn resize(picture: &Picture, width: u32, height: u32) -> (pixels: Vec<u8>)
    requires
        whole(picture@),
        picture.width > 0,
        picture.height > 0,
        picture.width * height * 16 <= isize::MAX,
        width * height * 4 <= isize::MAX,
    ensures
        pixels@ == at_size(picture@, width, height),
        pixels@.len() == width * height * 4,
{
    if picture.width == width && picture.height == height {
        copy_bytes(picture.pixels.as_slice())
    } else {
        resample(picture, width, height)
    }
}

/// Cuts the part of a picture out that a region names and scales it, into the
/// bytes that were given for it. They must be enough; what is behind the frame
/// is left as it is.
pub fn scale_into(
    picture: &Picture,
    region: Region,
    width: u32,
    height: u32,
    target: &mut [u8],
) -> (scaled: Result<(), ImageFailure>)
    requires
        whole(picture@),
        picture.width > 0,
        picture.height > 0,
        picture.width * height * 16 <= isize::MAX,
        width * height * 4 <= isize::MAX,
    ensures
        match scaled {
            Ok(()) => width * height * 4 <= old(target)@.len() && final(target)@ == frame_of(
                picture@,
                region,
                width,
                height,
            ) + old(target)@.skip(width * height * 4),
            Err(failure) => {
                &&& old(target)@.len() < width * height * 4
                &&& final(target)@ == old(target)@
                &&& failure@ == Failure::Undecodable(
                    "<frame>"@,
                    "target holds "@ + decimal_text(old(target)@.len()) + " bytes, needs "@
                        + decimal_text((width * height * 4) as nat),
                )
            },
        },
{
    proof {
        assert(0 <= width * height) by (nonlinear_arith)
            requires
                0 <= width,
                0 <= height,
        ;
    }
    let needed: usize = width as usize * height as usize * 4;
    let length: usize = target.len();
    if length < needed {
        let mut reason = owned("target holds ");
        push_decimal(&mut reason, length as u64);
        push_str(&mut reason, " bytes, needs ");
        push_wide_decimal(&mut reason, needed as u128);
        return Err(ImageFailure::Undecodable { path: owned("<frame>"), reason });
    }
    let frame = if region.is_full() {
        resize(picture, width, height)
    } else {
        let part = crop_view(picture.width, picture.height, region);
        let cut = crop(picture, part);
        assert(part.width * height * 16 <= picture.width * height * 16) by (nonlinear_arith)
            requires
                part.width <= picture.width,
                0 <= height,
        ;
        resize(&cut, width, height)
    };
    let ghost before = target@;
    let mut i: usize = 0;
    assert(target@ =~= frame@.take(0) + before.skip(0));
    while i < needed
        invariant
            i <= needed,
            needed <= length,
            length == before.len(),
            target@.len() == length,
            frame@.len() == needed,
            target@ == frame@.take(i as int) + before.skip(i as int),
        decreases needed - i,
    {
        let ghost now = target@;
        target[i] = frame[i];
        assert(target@ =~= frame@.take(i + 1) + before.skip(i + 1));
        i += 1;
    }
    assert(frame@.take(needed as int) =~= frame@);
    Ok(())
}

/// Each side of the pixels that a part of a page names follows its own side of the
/// part: it starts, and is long, as many pixels as the part has millionths of that
/// side, to within half a pixel, unless it would leave the picture or be empty.
pub proof fn law_each_side_is_cropped_by_its_own(width: int, height: int, region: Region)
    requires
        width > 0,
        height > 0,
    ensures
        ({
            let (x, y, w, h) = crop_of(width, height, region);
            &&& 0 <= x < width && 0 <= y < height
            &&& 0 < w <= width - x && 0 < h <= height - y
            &&& x == width - 1 || -500_000 <= x * 1_000_000 - region.x * width <= 500_000
            &&& y == height - 1 || -500_000 <= y * 1_000_000 - region.y * height <= 500_000
            &&& x == width - 1 ==> x * 1_000_000 - region.x * width <= 500_000
            &&& y == height - 1 ==> y * 1_000_000 - region.y * height <= 500_000
            &&& {
                let off = w * 1_000_000 - region.width * width;
                ||| -500_000 <= off <= 500_000
                ||| w == 1 && off > 0
                ||| w == width - x && off < 0
            }
            &&& {
                let off = h * 1_000_000 - region.height * height;
                ||| -500_000 <= off <= 500_000
                ||| h == 1 && off > 0
                ||| h == height - y && off < 0
            }
        }),
{
    assert(region.x * width >= 0) by (nonlinear_arith)
        requires
            region.x >= 0,
            width > 0,
    ;
    assert(region.y * height >= 0) by (nonlinear_arith)
        requires
            region.y >= 0,
            height > 0,
    ;
    assert(region.width * width >= 0) by (nonlinear_arith)
        requires
            region.width >= 0,
            width > 0,
    ;
    assert(region.height * height >= 0) by (nonlinear_arith)
        requires
            region.height >= 0,
            height > 0,
    ;
}

/// What is cropped one way does not depend on the other: parts that differ only
/// from top to bottom name the same columns, and parts that differ only from left
/// to right the same rows.
pub proof fn law_the_sides_are_cropped_apart(
    width: int,
    height: int,
    other_height: int,
    region: Region,
    other: Region,
)
    requires
        region.x == other.x,
        region.width == other.width,
    ensures
        crop_of(width, height, region).0 == crop_of(width, other_height, other).0,
        crop_of(width, height, region).2 == crop_of(width, other_height, other).2,
{
}

/// The same from left to right.
pub proof fn law_the_rows_do_not_depend_on_the_columns(
    width: int,
    other_width: int,
    height: int,
    region: Region,
    other: Region,
)
    requires
        region.y == other.y,
        region.height == other.height,
    ensures
        crop_of(width, height, region).1 == crop_of(other_width, height, other).1,
        crop_of(width, height, region).3 == crop_of(other_width, height, other).3,
{
}

proof fn lemma_crop_rows(picture: PictureValue, crop: CropBox, n: int, row: int, at: int)
    requires
        whole(picture),
        crop.x + crop.width <= picture.width,
        crop.y + crop.height <= picture.height,
        0 <= row < n <= crop.height,
        0 <= at < crop.width * 4,
    ensures
        crop_rows(picture, crop, n).len() == n * (crop.width * 4),
        0 <= row * (crop.width * 4) + at < n * (crop.width * 4),
        crop_rows(picture, crop, n)[row * (crop.width * 4) + at] == crop_row(
            picture,
            crop,
            row,
        )[at],
    decreases n,
{
    let line = crop.width * 4;
    lemma_row_fits(picture, crop, n - 1);
    assert(n * line == (n - 1) * line + line) by (nonlinear_arith);
    if n == 1 {
        assert(crop_rows(picture, crop, 0) =~= Seq::empty());
        assert(0 * line == 0);
        assert(row == 0);
    } else {
        lemma_crop_rows(picture, crop, n - 1, if row < n - 1 { row } else { 0 }, at);
        if row < n - 1 {
            assert((row + 1) * line <= (n - 1) * line) by (nonlinear_arith)
                requires
                    row + 1 <= n - 1,
                    line >= 0,
            ;
            assert((row + 1) * line == row * line + line) by (nonlinear_arith);
        }
    }
    assert(row * line >= 0) by (nonlinear_arith)
        requires
            row >= 0,
            line >= 0,
    ;
}

/// A part of a picture has the pixels of the picture: what stands in a row and a
/// column of it stands in the picture as many rows further down and as many
/// columns further right as the part starts.
pub proof fn law_a_part_has_the_pixels_of_the_picture(
    picture: PictureValue,
    crop: CropBox,
    row: int,
    column: int,
    channel: int,
)
    requires
        whole(picture),
        crop.x + crop.width <= picture.width,
        crop.y + crop.height <= picture.height,
        0 <= row < crop.height,
        0 <= column < crop.width,
        0 <= channel < 4,
    ensures
        cropped(picture, crop).width == crop.width,
        cropped(picture, crop).height == crop.height,
        cropped(picture, crop).pixels[(row * crop.width + column) * 4 + channel]
            == picture.pixels[((crop.y + row) * picture.width + crop.x + column) * 4 + channel],
{
    let at = column * 4 + channel;
    lemma_crop_rows(picture, crop, crop.height as int, row, at);
    lemma_row_fits(picture, crop, row);
    assert((row * crop.width + column) * 4 + channel == row * (crop.width * 4) + at)
        by (nonlinear_arith)
        requires
            at == column * 4 + channel,
    ;
}

/// A frame of the size of the part shows the pixels of the part as they are, and
/// the whole picture at its own size is the picture.
pub proof fn law_a_frame_of_the_same_size_is_the_part(picture: PictureValue, region: Region)
    requires
        picture.width > 0,
        picture.height > 0,
    ensures
        region.x == 0 && region.y == 0 && region.width == 1_000_000 && region.height == 1_000_000
            ==> frame_of(picture, region, picture.width, picture.height) == picture.pixels,
        ({
            let (x, y, w, h) = crop_of(picture.width as int, picture.height as int, region);
            let part = CropBox { x: x as u32, y: y as u32, width: w as u32, height: h as u32 };
            frame_of(picture, region, w as u32, h as u32) == (if region.x == 0 && region.y == 0
                && region.width == 1_000_000 && region.height == 1_000_000 {
                picture.pixels
            } else {
                cropped(picture, part).pixels
            })
        }),
{
    let (x, y, w, h) = crop_of(picture.width as int, picture.height as int, region);
    assert(0 < w <= picture.width && 0 < h <= picture.height) by {
        law_each_side_is_cropped_by_its_own(picture.width as int, picture.height as int, region);
    }
    assert(share_of(1_000_000, picture.width as int) == picture.width);
    assert(share_of(1_000_000, picture.height as int) == picture.height);
}

} // verus!
