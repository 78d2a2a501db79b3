//! Images, cut into the patches that the vision embedder takes.

use crate::double::{
    divide, nearest_root, power, quotient, quotient_is_near, root_is_near, root_nearest, round,
    rounded, rounded_is_near, square_root, whole, whole_is_near, whole_part, whole_scales,
};
use crate::text::{decimal, push_decimal};
use vstd::arithmetic::power2::*;
use vstd::prelude::*;
use vstd::string::*;

verus! {

pub const MODEL_PATCH_SIZE: u32 = 48;

pub const MAX_SOFT_TOKENS: usize = 280;

/// The bytes of one patch: 48 rows of 48 pixels of three bytes.
pub const PATCH_BYTES: usize = 6912;

pub const MAX_SOURCE_SIDE: u32 = 16384;

pub const MAX_DECODE_BYTES: u64 = 268_435_456;

/// The pixels that all patches together may have.
pub const MAX_PIXELS: u128 = 645_120;

/// The patches of one image, in reading order, and where each of them stands.
pub struct ImagePatches {
    /// Red, green and blue bytes of each patch, row by row.
    pub pixels: Vec<Vec<u8>>,
    /// Column and row of each patch.
    pub positions: Vec<(usize, usize)>,
}

/// The factor, in double precision, that scales an image to as many pixels as
/// the patches may have.
pub open spec fn scale_of(height: nat, width: nat) -> (nat, nat) {
    let (q, s) = quotient(MAX_PIXELS as nat, rounded(height * width));
    square_root(q, s)
}

/// How many whole patches fit along a side that is scaled by a factor, in double
/// precision.
pub open spec fn scaled_blocks(side: nat, factor: nat, t: nat) -> nat {
    whole(rounded(side * factor), 48 * pow2(t))
}

/// How many whole patches fit along a side of an image once it is scaled.
pub open spec fn blocks(side: nat, height: nat, width: nat) -> nat {
    let (factor, t) = scale_of(height, width);
    scaled_blocks(side, factor, t)
}

/// How many rows and columns of patches an image is given. One that is too
/// narrow for a patch gets a single row or column.
pub open spec fn grid(height: nat, width: nat) -> Option<(nat, nat)> {
    let rows = blocks(height, height, width);
    let cols = blocks(width, height, width);
    if rows == 0 && cols == 0 {
        None
    } else if rows == 0 {
        Some((1, at_most(width / height, MAX_SOFT_TOKENS as nat)))
    } else if cols == 0 {
        Some((at_most(height / width, MAX_SOFT_TOKENS as nat), 1))
    } else {
        Some((rows, cols))
    }
}

/// The lesser of a number and a limit.
pub open spec fn at_most(n: nat, limit: nat) -> nat {
    if n < limit {
        n
    } else {
        limit
    }
}

/// The height and width that an image is resized to, or why it is not taken.
pub open spec fn target_size(height: nat, width: nat) -> Result<(nat, nat), Seq<char>> {
    match grid(height, width) {
        None => Err(
            "cannot resize "@ + decimal(width) + "x"@ + decimal(height) + " to a multiple of 48"@,
        ),
        Some((rows, cols)) => if rows * cols > MAX_SOFT_TOKENS {
            Err(
                "resizing "@ + decimal(width) + "x"@ + decimal(height) + " to "@ + decimal(
                    cols * 48,
                ) + "x"@ + decimal(rows * 48) + " exceeds 280 patches"@,
            )
        } else {
            Ok((rows * 48, cols * 48))
        },
    }
}

fn scale_factor(height: u32, width: u32) -> (r: (u128, u32))
    requires
        height > 0,
        width > 0,
    ensures
        (r.0 as nat, r.1 as nat) == scale_of(height as nat, width as nat),
        0 < r.0 <= 0x40_0000_0000_0000,
        26 <= r.1 <= 76,
{
    assert(1 <= height * width < 0x1_0000_0000_0000_0000) by (nonlinear_arith)
        requires
            1 <= height <= 0xffff_ffff,
            1 <= width <= 0xffff_ffff,
    ;
    let (m, e) = round(height as u128 * width as u128);
    proof {
        rounded_is_near((height * width) as nat);
        lemma_pow2_pos(e as nat);
        assert(0 < m * pow2(e as nat) && pow2(e as nat) <= m * pow2(e as nat)) by (nonlinear_arith)
            requires
                m >= 1,
                pow2(e as nat) >= 1,
        ;
    }
    let area: u128 = m * power(e);
    let (q, s) = divide(MAX_PIXELS, area);
    assert(s < 100) by {
        if s >= 100 {
            lemma2_to64_rest();
            lemma_pow2_adds(50, 50);
            if s > 100 {
                lemma_pow2_strictly_increases(100, s as nat);
            }
            assert(pow2(50) * pow2(50) == 0x4_0000_0000_0000 * 0x4_0000_0000_0000);
            assert(MAX_PIXELS * pow2(s as nat) >= 645_120 * 0x10_0000_0000_0000_0000_0000_0000);
        }
    }
    let (shift, t): (u128, u32) = if s % 2 == 0 {
        (0x10_0000_0000_0000, (s + 52) / 2)
    } else {
        (0x20_0000_0000_0000, (s + 53) / 2)
    };
    assert(0 < q * shift <= 0x20_0000_0000_0000 * 0x20_0000_0000_0000) by (nonlinear_arith)
        requires
            0 < q <= 0x20_0000_0000_0000,
            0 < shift <= 0x20_0000_0000_0000,
    ;
    proof {
        lemma2_to64_rest();
    }
    (root_nearest(q * shift), t)
}

fn fit_blocks(side: u32, factor: u128, t: u32) -> (r: u64)
    requires
        side > 0,
        0 < factor <= 0x40_0000_0000_0000,
        26 <= t <= 76,
    ensures
        r == scaled_blocks(side as nat, factor as nat, t as nat),
        r <= 0x200_0000_0000_0000,
{
    assert(0 < side * factor <= 0xffff_ffff * 0x40_0000_0000_0000) by (nonlinear_arith)
        requires
            0 < side <= 0xffff_ffff,
            0 < factor <= 0x40_0000_0000_0000,
    ;
    let (m, e) = round(side as u128 * factor);
    proof {
        blocks_are_few(side as nat, factor as nat, t as nat);
        lemma2_to64();
        lemma2_to64_rest();
    }
    if e >= t {
        let k: u32 = e - t;
        proof {
            lemma_pow2_pos(t as nat);
            lemma_pow2_adds(k as nat, t as nat);
            if k < 47 {
                lemma_pow2_strictly_increases(k as nat, 47);
            }
            let (p, c) = (pow2(k as nat), pow2(t as nat));
            assert(m * (p * c) == (m * p) * c) by (nonlinear_arith);
            assert(0 < m * p <= 0x20_0000_0000_0000 * 0x8000_0000_0000) by (nonlinear_arith)
                requires
                    0 < m <= 0x20_0000_0000_0000,
                    0 < p <= 0x8000_0000_0000,
            ;
            whole_scales((m * p) as nat, 48, c);
        }
        return whole_part(m * power(k), 48) as u64;
    }
    let k: u32 = t - e;
    proof {
        lemma_pow2_pos(e as nat);
        lemma_pow2_adds(k as nat, e as nat);
        let (p, c) = (pow2(k as nat), pow2(e as nat));
        assert(48 * (p * c) == (48 * p) * c) by (nonlinear_arith);
        lemma_pow2_pos(k as nat);
        whole_scales(m as nat, 48 * p, c);
        if k > 60 {
            lemma_pow2_strictly_increases(60, k as nat);
            whole_is_near(m as nat, 48 * p);
            let (w, d) = (whole(m as nat, 48 * p), 48 * p);
            assert(w == 0) by (nonlinear_arith)
                requires
                    4096 * (w * d) <= 4097 * m,
                    m <= 0x20_0000_0000_0000,
                    d >= 0x100_0000_0000_0000,
            ;
        } else if k < 60 {
            lemma_pow2_strictly_increases(k as nat, 60);
        }
    }
    if k > 60 {
        return 0;
    }
    whole_part(m, 48 * power(k)) as u64
}

/// The patches along a side can be counted.
proof fn blocks_are_few(side: nat, factor: nat, t: nat)
    requires
        0 < side <= 0xffff_ffff,
        0 < factor <= 0x40_0000_0000_0000,
        t >= 26,
    ensures
        scaled_blocks(side, factor, t) <= 0x200_0000_0000_0000,
{
    let r = scaled_blocks(side, factor, t);
    let d = 48 * pow2(t);
    blocks_are_near(side, factor, t);
    lemma2_to64();
    if t > 26 {
        lemma_pow2_strictly_increases(26, t);
    }
    assert(side * factor <= 0xffff_ffff * 0x40_0000_0000_0000) by (nonlinear_arith)
        requires
            side <= 0xffff_ffff,
            factor <= 0x40_0000_0000_0000,
    ;
    assert(r * d >= r * 0xc000_0000) by (nonlinear_arith)
        requires
            d >= 0xc000_0000,
    ;
}

/// The height and width that an image is resized to: multiples of a patch's
/// side that keep about its proportions, within the number of patches allowed.
pub fn aspect_preserving_size(height: u32, width: u32) -> (r: Result<(u32, u32), String>)
    requires
        height > 0,
        width > 0,
    ensures
        r is Ok,
        match r {
            Ok((target_height, target_width)) => {
                &&& target_size(height as nat, width as nat) == Ok::<_, Seq<char>>(
                    (target_height as nat, target_width as nat),
                )
                &&& target_height >= 48 && target_height % 48 == 0
                &&& target_width >= 48 && target_width % 48 == 0
                &&& (target_height / 48) * (target_width / 48) <= MAX_SOFT_TOKENS
            },
            Err(message) => target_size(height as nat, width as nat) == Err::<(nat, nat), _>(
                message@,
            ),
        },
{
    proof {
        every_size_is_taken(height as nat, width as nat);
    }
    let (factor, t) = scale_factor(height, width);
    let mut rows: u64 = fit_blocks(height, factor, t);
    let mut cols: u64 = fit_blocks(width, factor, t);
    if rows == 0 && cols == 0 {
        let mut message = "cannot resize ".to_owned();
        push_decimal(&mut message, width as u64);
        message.append("x");
        push_decimal(&mut message, height as u64);
        message.append(" to a multiple of 48");
        return Err(message);
    }
    if rows == 0 {
        rows = 1;
        cols = (width / height) as u64;
        if cols >= 280 {
            cols = 280;
        }
    } else if cols == 0 {
        cols = 1;
        rows = (height / width) as u64;
        if rows >= 280 {
            rows = 280;
        }
    }
    assert(grid(height as nat, width as nat) == Some((rows as nat, cols as nat)));
    assert(rows * cols <= 0x200_0000_0000_0000 * 0x200_0000_0000_0000) by (nonlinear_arith)
        requires
            rows <= 0x200_0000_0000_0000,
            cols <= 0x200_0000_0000_0000,
    ;
    if rows as u128 * cols as u128 > 280 {
        let mut message = "resizing ".to_owned();
        push_decimal(&mut message, width as u64);
        message.append("x");
        push_decimal(&mut message, height as u64);
        message.append(" to ");
        push_decimal(&mut message, cols * 48);
        message.append("x");
        push_decimal(&mut message, rows * 48);
        message.append(" exceeds 280 patches");
        return Err(message);
    }
    proof {
        if cols >= 1 {
            assert(rows <= 280) by (nonlinear_arith)
                requires
                    rows * cols <= 280,
                    cols >= 1,
            ;
        }
        if rows >= 1 {
            assert(cols <= 280) by (nonlinear_arith)
                requires
                    rows * cols <= 280,
                    rows >= 1,
            ;
        }
    }
    Ok(((rows * 48) as u32, (cols * 48) as u32))
}

/// An image, pixel by pixel: red, green and blue, row by row.
#[derive(Debug)]
pub struct Picture {
    pub width: u32,
    pub height: u32,
    pub pixels: Vec<u8>,
}

impl Picture {
    /// There are three bytes to each pixel, and no side is too long.
    pub open spec fn well_formed(&self) -> bool {
        &&& self.pixels@.len() == self.width * self.height * 3
        &&& self.width <= MAX_SOURCE_SIDE
        &&& self.height <= MAX_SOURCE_SIDE
    }
}

/// A file of these bytes may decode, within these limits, to this image or to
/// this fault.
pub uninterp spec fn may_decode(
    bytes: Seq<u8>,
    max_side: u32,
    max_alloc: u64,
    outcome: Result<(u32, u32, Seq<u8>), Seq<char>>,
) -> bool;

/// An image of these pixels and this size may be resized to these pixels.
pub uninterp spec fn may_resize(
    pixels: Seq<u8>,
    width: u32,
    height: u32,
    target_width: u32,
    target_height: u32,
    resized: Seq<u8>,
) -> bool;

/// `image::ImageReader::decode`, on a reader that guesses the format and has the
/// given limits on the sides and on memory; then `DynamicImage::to_rgb8`. An
/// image that comes out keeps the limit on its sides and has three bytes to a
/// pixel. Which image or fault it is, the name `may_decode` says: decoders
/// choose their arithmetic by the machine, so it may not be the same everywhere.
#[verifier::external_body]
fn decode_picture(bytes: &[u8], max_side: u32, max_alloc: u64) -> (r: Result<Picture, String>)
    ensures
        match r {
            Ok(picture) => {
                &&& picture.width <= max_side
                &&& picture.height <= max_side
                &&& picture.pixels@.len() == picture.width * picture.height * 3
                &&& may_decode(
                    bytes@,
                    max_side,
                    max_alloc,
                    Ok((picture.width, picture.height, picture.pixels@)),
                )
            },
            Err(message) => may_decode(bytes@, max_side, max_alloc, Err(message@)),
        },
{
    let mut limits = image::Limits::default();
    limits.max_image_width = Some(max_side);
    limits.max_image_height = Some(max_side);
    limits.max_alloc = Some(max_alloc);
    let source = image::ImageReader::new(std::io::Cursor::new(bytes));
    let mut reader = source.with_guessed_format().map_err(|fault| fault.to_string())?;
    reader.limits(limits);
    let decoded = reader.decode().map_err(|fault| fault.to_string())?.to_rgb8();
    let (width, height) = decoded.dimensions();
    Ok(Picture { width, height, pixels: decoded.into_raw() })
}

/// `image::imageops::resize` with the Catmull-Rom filter gives three bytes for
/// each pixel of the new size. Which bytes, the name `may_resize` says: the
/// filter goes through `f32::powi`, whose last bit is left open.
#[verifier::external_body]
fn resize_picture(picture: Picture, target_width: u32, target_height: u32) -> (r: Vec<u8>)
    requires
        picture.well_formed(),
        target_width <= MAX_SOURCE_SIDE,
        target_height <= MAX_SOURCE_SIDE,
    ensures
        r@.len() == target_width * target_height * 3,
        may_resize(
            picture.pixels@,
            picture.width,
            picture.height,
            target_width,
            target_height,
            r@,
        ),
{
    let source = image::RgbImage::from_raw(picture.width, picture.height, picture.pixels).unwrap();
    let filter = image::imageops::FilterType::CatmullRom;
    image::imageops::resize(&source, target_width, target_height, filter).into_raw()
}

/// Byte `i` of the patch in row `row` and column `col`, of an image with `cols`
/// columns of patches.
pub open spec fn patch_byte(raw: Seq<u8>, cols: nat, row: nat, col: nat, i: nat) -> u8 {
    raw[((row * 48 + i / 144) * (cols * 144) + col * 144 + i % 144) as int]
}

/// The patch in row `row` and column `col`.
pub open spec fn patch(raw: Seq<u8>, cols: nat, row: nat, col: nat) -> Seq<u8> {
    Seq::new(PATCH_BYTES as nat, |i: int| patch_byte(raw, cols, row, col, i as nat))
}

/// The patches of an image, in reading order.
pub open spec fn patches(raw: Seq<u8>, rows: nat, cols: nat) -> Seq<Seq<u8>> {
    Seq::new(rows * cols, |k: int| patch(raw, cols, k as nat / cols, k as nat % cols))
}

/// The columns and rows of the patches.
pub open spec fn places(rows: nat, cols: nat) -> Seq<(usize, usize)> {
    Seq::new(
        rows * cols,
        |k: int| ((k as nat % cols) as usize, (k as nat / cols) as usize),
    )
}

/// The bytes of the patches.
pub open spec fn patch_bytes(image: ImagePatches) -> Seq<Seq<u8>> {
    Seq::new(image.pixels@.len(), |k: int| image.pixels@[k]@)
}

/// Every byte of an image is in a patch, at the place that it has in the image.
pub proof fn patches_hold_every_byte(raw: Seq<u8>, rows: nat, cols: nat, y: nat, x: nat)
    requires
        y < rows * 48,
        x < cols * 144,
        raw.len() == rows * 48 * (cols * 144),
    ensures
        ({
            let k = y / 48 * cols + x / 144;
            let i = y % 48 * 144 + x % 144;
            &&& k < rows * cols
            &&& i < PATCH_BYTES
            &&& patches(raw, rows, cols)[k as int][i as int] == raw[(y * (cols * 144) + x) as int]
            &&& places(rows, cols)[k as int] == ((x / 144) as usize, (y / 48) as usize)
        }),
{
    let row = y / 48;
    let col = x / 144;
    let k = row * cols + col;
    let i = y % 48 * 144 + x % 144;
    assert(k < rows * cols) by (nonlinear_arith)
        requires
            row + 1 <= rows,
            col < cols,
            k == row * cols + col,
    ;
    vstd::arithmetic::div_mod::lemma_fundamental_div_mod_converse(
        k as int,
        cols as int,
        row as int,
        col as int,
    );
    assert(i / 144 == y % 48);
    assert(i % 144 == x % 144);
    assert(row * 48 + i / 144 == y);
    assert(col * 144 + i % 144 == x);
}

fn cut_patch(raw: &Vec<u8>, cols: usize, row: usize, col: usize) -> (r: Vec<u8>)
    requires
        col < cols <= 280,
        row < 280,
        raw@.len() >= (row + 1) * 48 * (cols * 144),
    ensures
        r@ == patch(raw@, cols as nat, row as nat, col as nat),
{
    let mut bytes: Vec<u8> = Vec::new();
    let mut i: usize = 0;
    while i < PATCH_BYTES
        invariant
            i <= PATCH_BYTES,
            col < cols <= 280,
            row < 280,
            raw@.len() >= (row + 1) * 48 * (cols * 144),
            bytes@.len() == i,
            forall|j: int|
                0 <= j < i ==> bytes@[j] == #[trigger] patch_byte(
                    raw@,
                    cols as nat,
                    row as nat,
                    col as nat,
                    j as nat,
                ),
        decreases PATCH_BYTES - i,
    {
        let y: usize = row * 48 + i / 144;
        let x: usize = col * 144 + i % 144;
        let stride: usize = cols * 144;
        assert(y * stride + x < (row + 1) * 48 * stride && y * stride + x < 0x4000_0000)
            by (nonlinear_arith)
            requires
                y < (row + 1) * 48,
                x < stride,
                y < 280 * 48,
                stride <= 280 * 144,
        ;
        assert(y * stride <= y * stride + x);
        bytes.push(raw[y * stride + x]);
        assert(bytes@[i as int] == patch_byte(
            raw@,
            cols as nat,
            row as nat,
            col as nat,
            i as nat,
        ));
        i += 1;
    }
    assert(bytes@ =~= patch(raw@, cols as nat, row as nat, col as nat));
    bytes
}

/// Cuts an image of `rows` rows and `cols` columns of patches.
pub fn cut_patches(raw: &Vec<u8>, rows: usize, cols: usize) -> (r: ImagePatches)
    requires
        rows <= 280,
        cols <= 280,
        raw@.len() == rows * 48 * (cols * 144),
    ensures
        patch_bytes(r) == patches(raw@, rows as nat, cols as nat),
        r.positions@ == places(rows as nat, cols as nat),
{
    let mut pixels: Vec<Vec<u8>> = Vec::new();
    let mut positions: Vec<(usize, usize)> = Vec::new();
    let ghost all = patches(raw@, rows as nat, cols as nat);
    let ghost spots = places(rows as nat, cols as nat);
    let mut row: usize = 0;
    while row < rows
        invariant
            row <= rows <= 280,
            cols <= 280,
            raw@.len() == rows * 48 * (cols * 144),
            all == patches(raw@, rows as nat, cols as nat),
            spots == places(rows as nat, cols as nat),
            pixels@.len() == row * cols,
            positions@.len() == row * cols,
            forall|k: int| 0 <= k < row * cols ==> #[trigger] pixels@[k]@ == all[k],
            forall|k: int| 0 <= k < row * cols ==> #[trigger] positions@[k] == spots[k],
        decreases rows - row,
    {
        assert((row + 1) * cols <= rows * cols) by (nonlinear_arith)
            requires
                row + 1 <= rows,
        ;
        assert((row + 1) * cols == row * cols + cols) by (nonlinear_arith);
        assert((row + 1) * 48 * (cols * 144) <= rows * 48 * (cols * 144)) by (nonlinear_arith)
            requires
                row + 1 <= rows,
        ;
        let mut col: usize = 0;
        while col < cols
            invariant
                row < rows <= 280,
                col <= cols <= 280,
                raw@.len() >= (row + 1) * 48 * (cols * 144),
                (row + 1) * cols <= rows * cols,
                (row + 1) * cols == row * cols + cols,
                all == patches(raw@, rows as nat, cols as nat),
                spots == places(rows as nat, cols as nat),
                pixels@.len() == row * cols + col,
                positions@.len() == row * cols + col,
                forall|k: int| 0 <= k < row * cols + col ==> #[trigger] pixels@[k]@ == all[k],
                forall|k: int|
                    0 <= k < row * cols + col ==> #[trigger] positions@[k] == spots[k],
            decreases cols - col,
        {
            pixels.push(cut_patch(raw, cols, row, col));
            positions.push((col, row));
            proof {
                let k = row * cols + col;
                vstd::arithmetic::div_mod::lemma_fundamental_div_mod_converse(
                    k,
                    cols as int,
                    row as int,
                    col as int,
                );
                assert(pixels@[k]@ == all[k]);
                assert(positions@[k] == spots[k]);
            }
            col += 1;
        }
        row += 1;
    }
    let r = ImagePatches { pixels, positions };
    assert(patch_bytes(r) =~= all);
    assert(r.positions@ =~= spots);
    r
}

/// What an image of this size and these pixels, resized as `raw` says, is cut
/// into.
pub open spec fn cut_from(image: ImagePatches, height: nat, width: nat, raw: Seq<u8>) -> bool {
    &&& target_size(height, width) is Ok
    &&& ({
        let (target_height, target_width) = target_size(height, width)->Ok_0;
        let rows = target_height / 48;
        let cols = target_width / 48;
        &&& raw.len() == target_height * target_width * 3
        &&& patch_bytes(image) == patches(raw, rows, cols)
        &&& image.positions@ == places(rows, cols)
    })
}

/// What an image of this size and these pixels may become: patches of its
/// resized pixels, nothing at all where it has no pixels, or a fault.
pub open spec fn may_patchify(
    height: u32,
    width: u32,
    pixels: Seq<u8>,
    outcome: Result<ImagePatches, Seq<char>>,
) -> bool {
    if height == 0 || width == 0 {
        outcome matches Ok(image) && image.pixels@.len() == 0 && image.positions@.len() == 0
    } else {
        match target_size(height as nat, width as nat) {
            Err(message) => outcome == Err::<ImagePatches, _>(message),
            Ok((target_height, target_width)) => {
                outcome matches Ok(image) && if target_height == height && target_width == width {
                    cut_from(image, height as nat, width as nat, pixels)
                } else {
                    exists|raw: Seq<u8>|
                        {
                            &&& #[trigger] may_resize(
                                pixels,
                                width,
                                height,
                                target_width as u32,
                                target_height as u32,
                                raw,
                            )
                            &&& cut_from(image, height as nat, width as nat, raw)
                        }
                }
            },
        }
    }
}

/// The outcome of a call, with the text of its fault.
pub open spec fn outcome_of<T>(r: Result<T, String>) -> Result<T, Seq<char>> {
    match r {
        Ok(value) => Ok(value),
        Err(message) => Err(message@),
    }
}

/// Cuts an image into patches, after resizing it where that is needed.
pub fn patchify(picture: Picture) -> (r: Result<ImagePatches, String>)
    requires
        picture.well_formed(),
    ensures
        may_patchify(picture.height, picture.width, picture.pixels@, outcome_of(r)),
        r is Ok,
        r matches Ok(image) ==> image.pixels@.len() <= MAX_SOFT_TOKENS,
{
    let width: u32 = picture.width;
    let height: u32 = picture.height;
    if width == 0 || height == 0 {
        return Ok(ImagePatches { pixels: Vec::new(), positions: Vec::new() });
    }
    match aspect_preserving_size(height, width) {
        Err(message) => Err(message),
        Ok((target_height, target_width)) => {
            let rows: usize = (target_height / 48) as usize;
            let cols: usize = (target_width / 48) as usize;
            proof {
                target_is_small(height, width);
                assert(target_height * target_width * 3 == rows * 48 * (cols * 144))
                    by (nonlinear_arith)
                    requires
                        target_height == rows * 48,
                        target_width == cols * 48,
                ;
                assert(width * height * 3 == height * width * 3) by (nonlinear_arith);
                assert(target_width * target_height * 3 == target_height * target_width * 3)
                    by (nonlinear_arith);
            }
            let raw: Vec<u8> = if target_width == width && target_height == height {
                picture.pixels
            } else {
                resize_picture(picture, target_width, target_height)
            };
            let image = cut_patches(&raw, rows, cols);
            assert(cut_from(image, height as nat, width as nat, raw@));
            assert(patch_bytes(image).len() == rows * cols);
            proof {
                if target_width != width || target_height != height {
                    assert(may_resize(
                        picture.pixels@,
                        width,
                        height,
                        target_width as nat as u32,
                        target_height as nat as u32,
                        raw@,
                    ));
                }
                assert(may_patchify(height, width, picture.pixels@, Ok(image)));
            }
            Ok(image)
        },
    }
}

/// No more rows or columns are given than there may be patches.
proof fn target_is_small(height: u32, width: u32)
    requires
        1 <= height <= MAX_SOURCE_SIDE,
        1 <= width <= MAX_SOURCE_SIDE,
    ensures
        target_size(height as nat, width as nat) matches Ok((target_height, target_width)) ==> {
            &&& target_height <= 280 * 48
            &&& target_width <= 280 * 48
        },
{
    if let Some((rows, cols)) = grid(height as nat, width as nat) {
        if rows * cols <= 280 {
            if cols >= 1 {
                assert(rows <= 280) by (nonlinear_arith)
                    requires
                        rows * cols <= 280,
                        cols >= 1,
                ;
            }
            if rows >= 1 {
                assert(cols <= 280) by (nonlinear_arith)
                    requires
                        rows * cols <= 280,
                        rows >= 1,
                ;
            }
        }
    }
}

/// What a file of these bytes may become.
pub open spec fn may_load(bytes: Seq<u8>, outcome: Result<ImagePatches, Seq<char>>) -> bool {
    ||| exists|width: u32, height: u32, pixels: Seq<u8>|
        {
            &&& #[trigger] may_decode(
                bytes,
                MAX_SOURCE_SIDE,
                MAX_DECODE_BYTES,
                Ok((width, height, pixels)),
            )
            &&& may_patchify(height, width, pixels, outcome)
        }
    ||| exists|message: Seq<char>|
        {
            &&& #[trigger] may_decode(bytes, MAX_SOURCE_SIDE, MAX_DECODE_BYTES, Err(message))
            &&& outcome == Err::<ImagePatches, _>(message)
        }
}

/// Takes in an image file.
pub fn load_from_bytes(bytes: &[u8]) -> (r: Result<ImagePatches, String>)
    ensures
        may_load(bytes@, outcome_of(r)),
        r matches Ok(image) ==> image.pixels@.len() <= MAX_SOFT_TOKENS,
{
    match decode_picture(bytes, MAX_SOURCE_SIDE, MAX_DECODE_BYTES) {
        Err(message) => Err(message),
        Ok(picture) => patchify(picture),
    }
}

/// An image that is scaled by its factor has about as many pixels as the patches
/// may have.
proof fn scale_is_near(height: nat, width: nat)
    requires
        height > 0,
        width > 0,
    ensures
        ({
            let (factor, t) = scale_of(height, width);
            let scaled = (height * width) * (factor * factor);
            let unit = pow2(t) * pow2(t);
            &&& factor > 0
            &&& 281_474_976_710_656 * scaled <= 281_749_955_297_281 * (645_120 * unit)
            &&& 281_474_976_710_656 * (645_120 * unit) <= 281_749_955_297_281 * scaled
        }),
{
    let product = height * width;
    assert(product > 0) by (nonlinear_arith)
        requires
            product == height * width,
            height > 0,
            width > 0,
    ;
    let area = rounded(product);
    rounded_is_near(product);
    let (q, s) = quotient(645_120, area);
    quotient_is_near(645_120, area);
    let k: nat = if s % 2 == 0 {
        52
    } else {
        53
    };
    let (factor, t) = scale_of(height, width);
    assert(2 * t == s + k);
    let (p, e, unit) = (pow2(s), pow2(k), pow2(t) * pow2(t));
    lemma_pow2_adds(t, t);
    lemma_pow2_adds(s, k);
    assert(unit == p * e);
    lemma2_to64_rest();
    let n = q * e;
    assert(n >= 0x10_0000_0000_0000) by (nonlinear_arith)
        requires
            n == q * e,
            q >= 0x10_0000_0000_0000,
            e >= 1,
    ;
    root_is_near(n);
    let square = factor * factor;
    assert(factor == nearest_root(n));
    assert(factor > 0) by (nonlinear_arith)
        requires
            16_777_216 * n <= 16_785_409 * (factor * factor),
            n >= 0x10_0000_0000_0000,
    ;
    let exact = n * area;
    assert(exact == (q * area) * e) by (nonlinear_arith)
        requires
            exact == n * area,
            n == q * e,
    ;
    assert(16_777_216 * (area * square) <= 16_785_409 * exact && 16_777_216 * exact <= 16_785_409 * (area * square))
        by (nonlinear_arith)
        requires
            exact == n * area,
            16_777_216 * square <= 16_785_409 * n,
            16_777_216 * n <= 16_785_409 * square,
    ;
    let found = q * area;
    assert(4096 * (found * e) <= 4097 * (645_120 * (p * e)) && 4096 * (645_120 * (p * e)) <= 4097
        * (found * e)) by (nonlinear_arith)
        requires
            4096 * found <= 4097 * (645_120 * p),
            4096 * (645_120 * p) <= 4097 * found,
    ;
    assert(4096 * (product * square) <= 4097 * (area * square) && 4096 * (area * square) <= 4097
        * (product * square)) by (nonlinear_arith)
        requires
            4096 * product <= 4097 * area,
            4096 * area <= 4097 * product,
    ;
}

/// The patches along a side are about as many as the scaled side has room for.
proof fn blocks_are_near(side: nat, factor: nat, t: nat)
    requires
        side > 0,
        factor > 0,
    ensures
        16_777_216 * (scaled_blocks(side, factor, t) * (48 * pow2(t))) <= 16_785_409 * (side * factor),
        16_777_216 * (side * factor) <= 16_785_409 * ((scaled_blocks(side, factor, t) + 1) * (48 * pow2(
            t,
        ))),
        4096 * (side * factor) >= 4097 * (48 * pow2(t)) ==> scaled_blocks(side, factor, t) > 0,
{
    let n = side * factor;
    assert(n > 0) by (nonlinear_arith)
        requires
            n == side * factor,
            side > 0,
            factor > 0,
    ;
    lemma_pow2_pos(t);
    rounded_is_near(n);
    whole_is_near(rounded(n), 48 * pow2(t));
}

/// Along the longer side of an image there is room for a patch.
proof fn longer_sides_have_blocks(long: nat, height: nat, width: nat)
    requires
        height > 0,
        width > 0,
        long >= height,
        long >= width,
    ensures
        blocks(long, height, width) > 0,
{
    let (factor, t) = scale_of(height, width);
    let p = pow2(t);
    scale_is_near(height, width);
    lemma_pow2_pos(t);
    let n = long * factor;
    let (area, square) = (height * width, factor * factor);
    assert(area * square <= n * n) by (nonlinear_arith)
        requires
            area == height * width,
            square == factor * factor,
            n == long * factor,
            height <= long,
            width <= long,
    ;
    let least = 96 * p;
    assert(least * least == 9216 * (p * p)) by (nonlinear_arith)
        requires
            least == 96 * p,
    ;
    assert(p * p > 0) by (nonlinear_arith)
        requires
            p > 0,
    ;
    assert(n >= least) by (nonlinear_arith)
        requires
            n * n >= least * least,
    ;
    blocks_are_near(long, factor, t);
}

/// The patches of an image that is scaled by its factor are not too many.
proof fn blocks_fit(height: nat, width: nat)
    requires
        height > 0,
        width > 0,
    ensures
        blocks(height, height, width) * blocks(width, height, width) <= MAX_SOFT_TOKENS,
{
    let (factor, t) = scale_of(height, width);
    let p = pow2(t);
    let rows = blocks(height, height, width);
    let cols = blocks(width, height, width);
    scale_is_near(height, width);
    lemma_pow2_pos(t);
    blocks_are_near(height, factor, t);
    blocks_are_near(width, factor, t);
    let d = 48 * p;
    let (a, b) = (height * factor, width * factor);
    let (x, y) = (rows * d, cols * d);
    assert(281_474_976_710_656 * (x * y) <= 281_749_955_297_281 * (a * b)) by (nonlinear_arith)
        requires
            16_777_216 * x <= 16_785_409 * a,
            16_777_216 * y <= 16_785_409 * b,
    ;
    assert(a * b == (height * width) * (factor * factor)) by (nonlinear_arith)
        requires
            a == height * factor,
            b == width * factor,
    ;
    let (patches, unit) = (rows * cols, p * p);
    assert(x * y == 2304 * (patches * unit)) by (nonlinear_arith)
        requires
            x == rows * d,
            y == cols * d,
            d == 48 * p,
            patches == rows * cols,
            unit == p * p,
    ;
    assert(unit > 0) by (nonlinear_arith)
        requires
            unit == p * p,
            p > 0,
    ;
    assert(patches * unit < 281 * unit);
    assert(patches < 281) by (nonlinear_arith)
        requires
            patches * unit < 281 * unit,
            unit > 0,
    ;
}

/// No image is refused for its size, and every image has at least one row and
/// one column of patches, and no more patches than are allowed.
pub proof fn every_size_is_taken(height: nat, width: nat)
    requires
        height > 0,
        width > 0,
    ensures
        target_size(height, width) matches Ok((target_height, target_width)) && {
            &&& target_height >= 48
            &&& target_width >= 48
            &&& target_height % 48 == 0
            &&& target_width % 48 == 0
            &&& (target_height / 48) * (target_width / 48) <= MAX_SOFT_TOKENS
        },
{
    if height <= width {
        longer_sides_have_blocks(width, height, width);
        assert(width / height >= 1) by (nonlinear_arith)
            requires
                width >= height,
                height > 0,
        ;
    }
    if width <= height {
        longer_sides_have_blocks(height, height, width);
        assert(height / width >= 1) by (nonlinear_arith)
            requires
                height >= width,
                width > 0,
        ;
    }
    blocks_fit(height, width);
    assert(grid(height, width) is Some);
    let (rows, cols) = grid(height, width).unwrap();
    assert(rows * cols <= MAX_SOFT_TOKENS) by {
        assert(rows * 1 == rows && 1 * cols == cols);
    }
    assert((rows * 48) / 48 == rows && (cols * 48) / 48 == cols);
}

/// An image on its side is resized to the same size on its side.
pub proof fn sides_swap(height: nat, width: nat)
    requires
        height > 0,
        width > 0,
    ensures
        target_size(height, width) matches Ok((target_height, target_width))
            && target_size(width, height) == Ok::<_, Seq<char>>((target_width, target_height)),
{
    assert(height * width == width * height) by (nonlinear_arith);
    every_size_is_taken(height, width);
    every_size_is_taken(width, height);
}

/// `k` is the whole part of the square root of 280 times `a` over `b`, but for the
/// rounding of a fraction of a percent.
pub open spec fn near_root(k: nat, a: nat, b: nat) -> bool {
    &&& 500 * (k * k * b) <= 501 * (280 * a)
    &&& 500 * (280 * a) <= 501 * ((k + 1) * (k + 1) * b)
}

proof fn blocks_are_near_root(side: nat, other: nat, height: nat, width: nat)
    requires
        side > 0,
        other > 0,
        height > 0,
        width > 0,
        side * other == height * width,
    ensures
        near_root(blocks(side, height, width), side, other),
{
    let (factor, t) = scale_of(height, width);
    let p = pow2(t);
    let k = blocks(side, height, width);
    scale_is_near(height, width);
    lemma_pow2_pos(t);
    blocks_are_near(side, factor, t);
    let (unit, d, n) = (p * p, 48 * p, side * factor);
    let scaled = (height * width) * (factor * factor);
    assert(unit > 0) by (nonlinear_arith)
        requires
            unit == p * p,
            p > 0,
    ;
    assert(n * n * other == side * scaled) by (nonlinear_arith)
        requires
            n == side * factor,
            scaled == (side * other) * (factor * factor),
    ;
    near_root_above(k, d, n, other, side, unit, p, scaled);
    near_root_below(k, d, n, other, side, unit, p, scaled);
}

proof fn near_root_above(
    k: nat,
    d: nat,
    n: nat,
    other: nat,
    side: nat,
    unit: nat,
    p: nat,
    scaled: nat,
)
    requires
        d == 48 * p,
        unit == p * p,
        unit > 0,
        n * n * other == side * scaled,
        16_777_216 * (k * d) <= 16_785_409 * n,
        281_474_976_710_656 * scaled <= 281_749_955_297_281 * (645_120 * unit),
    ensures
        500 * (k * k * other) <= 501 * (280 * side),
{
    let x = k * d;
    assert(281_474_976_710_656 * (x * x) <= 281_749_955_297_281 * (n * n)) by (nonlinear_arith)
        requires
            16_777_216 * x <= 16_785_409 * n,
    ;
    let (xx, nn) = (x * x, n * n);
    assert(281_474_976_710_656 * (xx * other) <= 281_749_955_297_281 * (nn * other)) by (nonlinear_arith)
        requires
            281_474_976_710_656 * xx <= 281_749_955_297_281 * nn,
    ;
    assert(281_474_976_710_656 * (side * scaled) <= 281_749_955_297_281 * (645_120 * (side * unit))) by (nonlinear_arith)
        requires
            281_474_976_710_656 * scaled <= 281_749_955_297_281 * (645_120 * unit),
    ;
    let y = k * k * other;
    assert(xx * other == 2304 * (y * unit)) by (nonlinear_arith)
        requires
            xx == (k * d) * (k * d),
            d == 48 * p,
            unit == p * p,
            y == k * k * other,
    ;
    assert(500 * (y * unit) <= 501 * (280 * (side * unit)));
    assert(500 * y <= 501 * (280 * side)) by (nonlinear_arith)
        requires
            500 * (y * unit) <= 501 * (280 * (side * unit)),
            unit > 0,
    ;
}

proof fn near_root_below(
    k: nat,
    d: nat,
    n: nat,
    other: nat,
    side: nat,
    unit: nat,
    p: nat,
    scaled: nat,
)
    requires
        d == 48 * p,
        unit == p * p,
        unit > 0,
        n * n * other == side * scaled,
        16_777_216 * n <= 16_785_409 * ((k + 1) * d),
        281_474_976_710_656 * (645_120 * unit) <= 281_749_955_297_281 * scaled,
    ensures
        500 * (280 * side) <= 501 * ((k + 1) * (k + 1) * other),
{
    let x = (k + 1) * d;
    assert(281_474_976_710_656 * (n * n) <= 281_749_955_297_281 * (x * x)) by (nonlinear_arith)
        requires
            16_777_216 * n <= 16_785_409 * x,
    ;
    let (xx, nn) = (x * x, n * n);
    assert(281_474_976_710_656 * (nn * other) <= 281_749_955_297_281 * (xx * other)) by (nonlinear_arith)
        requires
            281_474_976_710_656 * nn <= 281_749_955_297_281 * xx,
    ;
    assert(281_474_976_710_656 * (645_120 * (side * unit)) <= 281_749_955_297_281 * (side * scaled)) by (nonlinear_arith)
        requires
            281_474_976_710_656 * (645_120 * unit) <= 281_749_955_297_281 * scaled,
    ;
    let y = (k + 1) * (k + 1) * other;
    assert(xx * other == 2304 * (y * unit)) by (nonlinear_arith)
        requires
            xx == ((k + 1) * d) * ((k + 1) * d),
            d == 48 * p,
            unit == p * p,
            y == (k + 1) * (k + 1) * other,
    ;
    assert(500 * (280 * (side * unit)) <= 501 * (y * unit));
    assert(500 * (280 * side) <= 501 * y) by (nonlinear_arith)
        requires
            500 * (280 * (side * unit)) <= 501 * (y * unit),
            unit > 0,
    ;
}

/// The size that an image is resized to keeps its proportions and makes the most
/// of the patches: the rows are about the square root of 280 times the height
/// over the width, and the columns likewise. An image too flat for one row gets
/// one, and as many columns as its width has heights, within the limit; one too
/// narrow for a column likewise.
pub proof fn sizes_keep_the_proportions(height: nat, width: nat)
    requires
        height > 0,
        width > 0,
    ensures
        target_size(height, width) matches Ok((target_height, target_width)) && {
            let (rows, cols) = (target_height / 48, target_width / 48);
            ||| near_root(rows, height, width) && near_root(cols, width, height)
            ||| {
                &&& 500 * (280 * height) <= 501 * width
                &&& rows == 1
                &&& cols == if width / height < 280 {
                    width / height
                } else {
                    280
                }
            }
            ||| {
                &&& 500 * (280 * width) <= 501 * height
                &&& cols == 1
                &&& rows == if height / width < 280 {
                    height / width
                } else {
                    280
                }
            }
        },
{
    every_size_is_taken(height, width);
    blocks_are_near_root(height, width, height, width);
    assert(width * height == height * width) by (nonlinear_arith);
    blocks_are_near_root(width, height, height, width);
    let (rows, cols) = grid(height, width).unwrap();
    assert((rows * 48) / 48 == rows && (cols * 48) / 48 == cols);
    assert((0nat + 1) * (0nat + 1) * width == width) by (nonlinear_arith);
    assert((0nat + 1) * (0nat + 1) * height == height) by (nonlinear_arith);
}

/// The patches of an image that does not have its size yet are those of the image
/// resized to it, width by width and height by height; of one that has, they are
/// those of the image itself. Each byte goes to the patch that covers it.
pub proof fn images_are_resized_to_their_size(
    height: u32,
    width: u32,
    pixels: Seq<u8>,
    image: ImagePatches,
)
    requires
        height > 0,
        width > 0,
        may_patchify(height, width, pixels, Ok(image)),
    ensures
        target_size(height as nat, width as nat) matches Ok((th, tw)) && exists|raw: Seq<u8>|
            {
                &&& th == height && tw == width ==> raw == pixels
                &&& th != height || tw != width ==> may_resize(
                    pixels,
                    width,
                    height,
                    tw as u32,
                    th as u32,
                    raw,
                )
                &&& #[trigger] raw.len() == th * tw * 3
                &&& image.pixels@.len() == (th / 48) * (tw / 48)
                &&& image.positions@.len() == (th / 48) * (tw / 48)
                &&& patch_bytes(image) == patches(raw, th / 48, tw / 48)
                &&& image.positions@ == places(th / 48, tw / 48)
            },
{
    let (th, tw) = target_size(height as nat, width as nat)->Ok_0;
    every_size_is_taken(height as nat, width as nat);
    let raw = if th == height && tw == width {
        pixels
    } else {
        choose|raw: Seq<u8>|
            {
                &&& #[trigger] may_resize(pixels, width, height, tw as u32, th as u32, raw)
                &&& cut_from(image, height as nat, width as nat, raw)
            }
    };
    assert(cut_from(image, height as nat, width as nat, raw));
    assert(patch_bytes(image).len() == image.pixels@.len());
    assert(raw.len() == th * tw * 3);
}

/// An image that is loaded is decoded from the file within the limits, 16384
/// pixels to a side and 256 mebibytes, and then cut into patches.
pub proof fn loaded_images_are_decoded(bytes: Seq<u8>, outcome: Result<ImagePatches, Seq<char>>)
    requires
        may_load(bytes, outcome),
    ensures
        outcome matches Ok(image) ==> exists|width: u32, height: u32, pixels: Seq<u8>|
            {
                &&& #[trigger] may_decode(
                    bytes,
                    16384,
                    268_435_456,
                    Ok((width, height, pixels)),
                )
                &&& may_patchify(height, width, pixels, Ok(image))
            },
{
}

} // verus!
