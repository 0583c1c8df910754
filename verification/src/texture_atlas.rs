use crate::accuracy;
use crate::error;
use crate::error::{clear_last_error, set_last_error, LastError};
use crate::rounding;
use crate::single;
use crate::single::{Single, ONE_BITS, ZERO_BITS};
use crate::text;
use crate::text::append_decimal;
use crate::vector_accuracy;
use vstd::arithmetic::div_mod::lemma_fundamental_div_mod;
use vstd::arithmetic::div_mod::lemma_fundamental_div_mod_converse;
use vstd::arithmetic::power2::{lemma_pow2_pos, lemma_pow2_unfold, pow2};
use vstd::prelude::*;
use vstd::string::StringExecFns;

verus! {

/// An RGBA8 image: rows of pixels, four bytes each, without padding. `total_bytes`
/// is what the image is said to hold; there may be no pixels at all.
#[derive(Debug)]
pub struct RawImage {
    pub width: u32,
    pub height: u32,
    pub pixels: Option<Vec<u8>>,
    pub total_bytes: u32,
}

impl RawImage {
    /// There are at least as many bytes as the image is said to hold.
    pub open spec fn well_formed(self) -> bool {
        self.pixels matches Some(p) ==> p@.len() >= self.total_bytes
    }
}

/// An atlas and the size of its quadrants.
#[derive(Debug)]
pub struct RuntimeAtlasOutput {
    pub atlas_image: RawImage,
    pub quadrant_width: u32,
    pub quadrant_height: u32,
}

/// A place in the atlas.
#[derive(Debug, Clone, Copy, PartialEq, Eq, Structural)]
pub enum Quadrant {
    /// Head
    TopLeft,
    /// Torso
    TopRight,
    /// Legs
    BottomLeft,
    /// Feet
    BottomRight,
}

impl Quadrant {
    /// The pixel at the top left of the quadrant, across and down.
    pub open spec fn corner(self, quadrant_width: u32, quadrant_height: u32) -> (u32, u32) {
        match self {
            Quadrant::TopLeft => (0, 0),
            Quadrant::TopRight => (quadrant_width, 0),
            Quadrant::BottomLeft => (0, quadrant_height),
            Quadrant::BottomRight => (quadrant_width, quadrant_height),
        }
    }

    pub fn origin(self, quadrant_width: u32, quadrant_height: u32) -> (r: (u32, u32))
        ensures
            r == self.corner(quadrant_width, quadrant_height),
    {
        match self {
            Quadrant::TopLeft => (0, 0),
            Quadrant::TopRight => (quadrant_width, 0),
            Quadrant::BottomLeft => (0, quadrant_height),
            Quadrant::BottomRight => (quadrant_width, quadrant_height),
        }
    }
}

#[derive(Debug, Clone, Copy, PartialEq, Eq)]
pub enum AtlasError {
    /// The head or the torso is missing.
    NullRequiredSource,
    /// A source has no pixels.
    NullPixelData,
    /// A source has no width or no height.
    InvalidSourceDimensions,
    /// A source is larger than its quadrant.
    SourceTooLarge {
        source_width: u32,
        source_height: u32,
        quadrant_width: u32,
        quadrant_height: u32,
    },
    /// A source does not have four bytes for each pixel.
    ByteLengthMismatch { expected: u64, actual: u64 },
    /// A size would overflow. No function of this module returns it.
    DimensionOverflow,
    /// A row ends past the source's bytes. No function of this module returns it.
    SourceBufferTooSmall,
    /// A row ends past the atlas buffer.
    AtlasBufferTooSmall,
    /// The atlas size is zero, odd or too large.
    InvalidAtlasSize,
    /// A worker thread panicked. No function of this module returns it.
    ThreadPanicked,
}

impl AtlasError {
    /// The text that [`AtlasError::message`] returns.
    pub open spec fn text(self) -> Seq<char> {
        match self {
            AtlasError::NullRequiredSource => "NullRequiredSource"@,
            AtlasError::NullPixelData => "NullPixelData"@,
            AtlasError::InvalidSourceDimensions => "InvalidSourceDimensions"@,
            AtlasError::SourceTooLarge {
                source_width,
                source_height,
                quadrant_width,
                quadrant_height,
            } => "SourceTooLarge { source_width: "@ + text::decimal(source_width as nat)
                + ", source_height: "@ + text::decimal(source_height as nat)
                + ", quadrant_width: "@ + text::decimal(quadrant_width as nat)
                + ", quadrant_height: "@ + text::decimal(quadrant_height as nat) + " }"@,
            AtlasError::ByteLengthMismatch { expected, actual } =>
                "ByteLengthMismatch { expected: "@ + text::decimal(expected as nat) + ", actual: "@
                + text::decimal(actual as nat) + " }"@,
            AtlasError::DimensionOverflow => "DimensionOverflow"@,
            AtlasError::SourceBufferTooSmall => "SourceBufferTooSmall"@,
            AtlasError::AtlasBufferTooSmall => "AtlasBufferTooSmall"@,
            AtlasError::InvalidAtlasSize => "InvalidAtlasSize"@,
            AtlasError::ThreadPanicked => "ThreadPanicked"@,
        }
    }

    /// The name of the error, with its fields.
    pub fn message(&self) -> (r: String)
        ensures
            r@ == self.text(),
    {
        match self {
            AtlasError::NullRequiredSource => String::from_str("NullRequiredSource"),
            AtlasError::NullPixelData => String::from_str("NullPixelData"),
            AtlasError::InvalidSourceDimensions => String::from_str("InvalidSourceDimensions"),
            AtlasError::SourceTooLarge {
                source_width,
                source_height,
                quadrant_width,
                quadrant_height,
            } => {
                let mut m = String::from_str("SourceTooLarge { source_width: ");
                append_decimal(&mut m, *source_width as u64);
                m.append(", source_height: ");
                append_decimal(&mut m, *source_height as u64);
                m.append(", quadrant_width: ");
                append_decimal(&mut m, *quadrant_width as u64);
                m.append(", quadrant_height: ");
                append_decimal(&mut m, *quadrant_height as u64);
                m.append(" }");
                m
            },
            AtlasError::ByteLengthMismatch { expected, actual } => {
                let mut m = String::from_str("ByteLengthMismatch { expected: ");
                append_decimal(&mut m, *expected);
                m.append(", actual: ");
                append_decimal(&mut m, *actual);
                m.append(" }");
                m
            },
            AtlasError::DimensionOverflow => String::from_str("DimensionOverflow"),
            AtlasError::SourceBufferTooSmall => String::from_str("SourceBufferTooSmall"),
            AtlasError::AtlasBufferTooSmall => String::from_str("AtlasBufferTooSmall"),
            AtlasError::InvalidAtlasSize => String::from_str("InvalidAtlasSize"),
            AtlasError::ThreadPanicked => String::from_str("ThreadPanicked"),
        }
    }
}

// ------------------------------------------------------------------------
// Blitting
// ------------------------------------------------------------------------

/// Why a source cannot be copied, whatever the atlas buffer.
pub open spec fn source_error(atlas_width: u32, atlas_height: u32, source: RawImage) -> Option<
    AtlasError,
> {
    let quadrant_width = (atlas_width / 2) as u32;
    let quadrant_height = (atlas_height / 2) as u32;
    let expected = 4 * (source.width * source.height);
    if atlas_width == 0 || atlas_height == 0 {
        Some(AtlasError::InvalidAtlasSize)
    } else if source.pixels is None {
        Some(AtlasError::NullPixelData)
    } else if source.width == 0 || source.height == 0 {
        Some(AtlasError::InvalidSourceDimensions)
    } else if source.width > quadrant_width || source.height > quadrant_height {
        Some(
            AtlasError::SourceTooLarge {
                source_width: source.width,
                source_height: source.height,
                quadrant_width,
                quadrant_height,
            },
        )
    } else if expected != source.total_bytes {
        Some(
            AtlasError::ByteLengthMismatch {
                expected: expected as u64,
                actual: source.total_bytes as u64,
            },
        )
    } else {
        None
    }
}

/// The atlas with the first `rows` rows of an image copied in, the image's top left
/// at pixel `(x, y)`. Every other byte stays.
pub open spec fn with_rows(
    atlas: Seq<u8>,
    atlas_width: int,
    x: int,
    y: int,
    pixels: Seq<u8>,
    width: int,
    rows: int,
) -> Seq<u8> {
    Seq::new(
        atlas.len(),
        |p: int|
            {
                let down = p / (4 * atlas_width);
                let across = p % (4 * atlas_width);
                if y <= down < y + rows && 4 * x <= across < 4 * x + 4 * width {
                    pixels[(down - y) * (4 * width) + (across - 4 * x)]
                } else {
                    atlas[p]
                }
            },
    )
}

/// Where row `row` of an image at pixel `(x, y)` ends in the atlas buffer.
pub open spec fn row_end(atlas_width: int, x: int, y: int, width: int, row: int) -> int {
    ((y + row) * atlas_width + x) * 4 + 4 * width
}

/// Copies `count` bytes.
fn copy_bytes(to: &mut [u8], at: usize, from: &Vec<u8>, start: usize, count: usize)
    requires
        at + count <= old(to)@.len(),
        start + count <= from@.len(),
    ensures
        final(to)@.len() == old(to)@.len(),
        forall|p: int|
            0 <= p < old(to)@.len() ==> #[trigger] final(to)@[p] == if at <= p < at + count {
                from@[start + (p - at)]
            } else {
                old(to)@[p]
            },
{
    let ghost before = to@;
    assert(to.len() == before.len() && from.len() == from@.len());
    let mut i: usize = 0;
    while i < count
        invariant
            i <= count,
            to@.len() == before.len(),
            at + count <= before.len() <= usize::MAX,
            start + count <= from@.len() <= usize::MAX,
            forall|p: int|
                0 <= p < before.len() ==> #[trigger] to@[p] == if at <= p < at + i {
                    from@[start + (p - at)]
                } else {
                    before[p]
                },
        decreases count - i,
    {
        to[at + i] = from[start + i];
        i = i + 1;
    }
}

/// The bytes from `first` on, `count` of them, in row `down` of an atlas.
proof fn lemma_row_bytes(p: int, stride: int, down: int, first: int, count: int)
    requires
        0 <= p,
        0 < stride,
        0 <= down,
        0 <= first,
        first + count <= stride,
    ensures
        down * stride + first <= p < down * stride + first + count <==> p / stride == down && first
            <= p % stride < first + count,
{
    lemma_fundamental_div_mod(p, stride);
    assert(stride * (p / stride) == (p / stride) * stride) by (nonlinear_arith);
    if down * stride + first <= p < down * stride + first + count {
        let r = p - down * stride;
        lemma_fundamental_div_mod_converse(p, stride, down, r);
    }
}

/// One more row, copied byte by byte.
proof fn lemma_next_row(
    atlas: Seq<u8>,
    after: Seq<u8>,
    atlas_width: int,
    x: int,
    y: int,
    pixels: Seq<u8>,
    width: int,
    row: int,
)
    requires
        0 < width,
        0 <= x,
        0 <= y,
        0 <= row,
        x + width <= atlas_width,
        row_end(atlas_width, x, y, width, row) <= atlas.len(),
        (row + 1) * (4 * width) <= pixels.len(),
        ({
            let before = with_rows(atlas, atlas_width, x, y, pixels, width, row);
            let at = row_end(atlas_width, x, y, width, row) - 4 * width;
            &&& after.len() == before.len()
            &&& forall|p: int|
                0 <= p < before.len() ==> #[trigger] after[p] == if at <= p < at + 4 * width {
                    pixels[row * (4 * width) + (p - at)]
                } else {
                    before[p]
                }
        }),
    ensures
        after == with_rows(atlas, atlas_width, x, y, pixels, width, row + 1),
{
    let stride = 4 * atlas_width;
    let before = with_rows(atlas, atlas_width, x, y, pixels, width, row);
    let at = row_end(atlas_width, x, y, width, row) - 4 * width;
    assert(at == (y + row) * stride + 4 * x) by (nonlinear_arith)
        requires
            at == ((y + row) * atlas_width + x) * 4,
            stride == 4 * atlas_width,
    ;
    let goal = with_rows(atlas, atlas_width, x, y, pixels, width, row + 1);
    assert forall|p: int| 0 <= p < atlas.len() implies after[p] == goal[p] by {
        lemma_row_bytes(p, stride, y + row, 4 * x, 4 * width);
        assert(after[p] == if at <= p < at + 4 * width {
            pixels[row * (4 * width) + (p - at)]
        } else {
            before[p]
        });
        if at <= p < at + 4 * width {
            assert(p / stride == y + row);
            assert(p % stride - 4 * x == p - at) by {
                lemma_fundamental_div_mod(p, stride);
                assert(stride * (y + row) == (y + row) * stride) by (nonlinear_arith);
            }
        }
    }
    assert(after =~= goal);
}

/// What copying a source into a quadrant comes to.
pub open spec fn is_blitted(
    before: Seq<u8>,
    after: Seq<u8>,
    atlas_width: u32,
    atlas_height: u32,
    source: RawImage,
    quadrant: Quadrant,
    r: Result<(), AtlasError>,
) -> bool {
    let (x, y) = quadrant.corner((atlas_width / 2) as u32, (atlas_height / 2) as u32);
    match source_error(atlas_width, atlas_height, source) {
        Some(e) => r == Err::<(), AtlasError>(e) && after == before,
        None => {
            let width = source.width as int;
            let height = source.height as int;
            let pixels = source.pixels->0@;
            if row_end(atlas_width as int, x as int, y as int, width, height - 1) <= before.len() {
                &&& r == Ok::<(), AtlasError>(())
                &&& after == with_rows(
                    before,
                    atlas_width as int,
                    x as int,
                    y as int,
                    pixels,
                    width,
                    height,
                )
            } else {
                &&& r == Err::<(), AtlasError>(AtlasError::AtlasBufferTooSmall)
                &&& exists|rows: int|
                    {
                        &&& 0 <= rows < height
                        &&& row_end(atlas_width as int, x as int, y as int, width, rows)
                            > before.len()
                        &&& rows > 0 ==> row_end(
                            atlas_width as int,
                            x as int,
                            y as int,
                            width,
                            rows - 1,
                        ) <= before.len()
                        &&& after == #[trigger] with_rows(
                            before,
                            atlas_width as int,
                            x as int,
                            y as int,
                            pixels,
                            width,
                            rows,
                        )
                    }
            }
        },
    }
}

/// Copies `source`, row by row, into its quadrant of an atlas buffer of
/// `atlas_width` times `atlas_height` pixels.
///
/// Where the source does not fit its quadrant, or its length does not match its
/// size, nothing is written. Where the buffer is too short, the rows before the one
/// that does not fit have been copied.
pub fn blit_to_quadrant(
    atlas_buffer: &mut [u8],
    atlas_width: u32,
    atlas_height: u32,
    source: &RawImage,
    quadrant: Quadrant,
) -> (r: Result<(), AtlasError>)
    requires
        source.well_formed(),
    ensures
        final(atlas_buffer)@.len() == old(atlas_buffer)@.len(),
        is_blitted(
            old(atlas_buffer)@,
            final(atlas_buffer)@,
            atlas_width,
            atlas_height,
            *source,
            quadrant,
            r,
        ),
{
    if atlas_width == 0 || atlas_height == 0 {
        return Err(AtlasError::InvalidAtlasSize);
    }
    let pixels = match &source.pixels {
        None => {
            return Err(AtlasError::NullPixelData);
        },
        Some(pixels) => pixels,
    };
    if source.width == 0 || source.height == 0 {
        return Err(AtlasError::InvalidSourceDimensions);
    }
    let quadrant_width: u32 = atlas_width / 2;
    let quadrant_height: u32 = atlas_height / 2;
    if source.width > quadrant_width || source.height > quadrant_height {
        return Err(
            AtlasError::SourceTooLarge {
                source_width: source.width,
                source_height: source.height,
                quadrant_width,
                quadrant_height,
            },
        );
    }
    assert(0 <= source.width * source.height < 0x4000_0000_0000_0000) by (nonlinear_arith)
        requires
            0 <= source.width < 0x8000_0000,
            0 <= source.height < 0x8000_0000,
    ;
    let expected: u64 = 4 * (source.width as u64 * source.height as u64);
    if expected != source.total_bytes as u64 {
        return Err(
            AtlasError::ByteLengthMismatch { expected, actual: source.total_bytes as u64 },
        );
    }
    let (origin_x, origin_y) = quadrant.origin(quadrant_width, quadrant_height);
    let row_bytes: u64 = 4 * source.width as u64;
    let ghost before = atlas_buffer@;
    let ghost x = origin_x as int;
    let ghost y = origin_y as int;
    let ghost width = source.width as int;
    let mut row: u32 = 0;
    assert(atlas_buffer@ =~= with_rows(before, atlas_width as int, x, y, pixels@, width, 0));
    while row < source.height
        invariant
            source.well_formed(),
            source.pixels == Some(*pixels),
            source_error(atlas_width, atlas_height, *source) is None,
            (origin_x, origin_y) == quadrant.corner(
                (atlas_width / 2) as u32,
                (atlas_height / 2) as u32,
            ),
            before == old(atlas_buffer)@,
            x == origin_x,
            y == origin_y,
            width == source.width,
            0 < width,
            x + width <= atlas_width,
            y + source.height <= atlas_height,
            row_bytes == 4 * source.width,
            row <= source.height,
            4 * (source.width * source.height) == source.total_bytes,
            row > 0 ==> row_end(atlas_width as int, x, y, width, row - 1) <= before.len(),
            atlas_buffer@ == with_rows(before, atlas_width as int, x, y, pixels@, width, row as int),
            atlas_buffer@.len() == before.len(),
        decreases source.height - row,
    {
        let ghost here = atlas_buffer@;
        let dst_y: u128 = origin_y as u128 + row as u128;
        assert(0 <= dst_y * atlas_width <= 0xffff_ffff * 0xffff_ffff) by (nonlinear_arith)
            requires
                0 <= dst_y <= 0xffff_ffff,
                0 <= atlas_width <= 0xffff_ffff,
        ;
        let dst_start: u128 = (dst_y * atlas_width as u128 + origin_x as u128) * 4;
        let dst_end: u128 = dst_start + row_bytes as u128;
        proof {
            assert(dst_end == row_end(atlas_width as int, x, y, width, row as int));
        }
        if dst_end > atlas_buffer.len() as u128 {
            proof {
                if row < source.height - 1 {
                    lemma_row_end_grows(
                        atlas_width as int,
                        x,
                        y,
                        width,
                        row as int,
                        source.height - 1,
                    );
                }
            }
            return Err(AtlasError::AtlasBufferTooSmall);
        }
        assert(row * (4 * width) + 4 * width <= source.total_bytes) by (nonlinear_arith)
            requires
                4 * (width * source.height) == source.total_bytes,
                0 <= row < source.height,
                0 < width,
        ;
        assert(row * row_bytes <= u32::MAX);
        let src_start: usize = (row as u64 * row_bytes) as usize;
        copy_bytes(atlas_buffer, dst_start as usize, pixels, src_start, row_bytes as usize);
        proof {
            assert((row + 1) * (4 * width) == row * (4 * width) + 4 * width) by (nonlinear_arith);
            lemma_next_row(
                before,
                atlas_buffer@,
                atlas_width as int,
                x,
                y,
                pixels@,
                width,
                row as int,
            );
        }
        row = row + 1;
    }
    Ok(())
}

proof fn lemma_row_end_grows(atlas_width: int, x: int, y: int, width: int, i: int, j: int)
    requires
        0 <= atlas_width,
        i <= j,
    ensures
        row_end(atlas_width, x, y, width, i) <= row_end(atlas_width, x, y, width, j),
{
    assert((y + i) * atlas_width <= (y + j) * atlas_width) by (nonlinear_arith)
        requires
            0 <= atlas_width,
            i <= j,
    ;
}

// ------------------------------------------------------------------------
// The whole atlas
// ------------------------------------------------------------------------

/// A byte of an image, `across` bytes from the left and `down` rows from the top;
/// zero where there is no image, or the image does not reach.
pub open spec fn image_byte(image: Option<&RawImage>, across: int, down: int) -> u8 {
    match image {
        Some(image) => if down < image.height && across < 4 * image.width {
            image.pixels->0@[down * (4 * image.width as int) + across]
        } else {
            0
        },
        None => 0,
    }
}

/// Byte `p` of a square atlas: that of the image in whose quadrant it lies.
pub open spec fn atlas_byte(
    head: Option<&RawImage>,
    torso: Option<&RawImage>,
    legs: Option<&RawImage>,
    feet: Option<&RawImage>,
    size: int,
    p: int,
) -> u8 {
    let half = size / 2;
    let down = p / (4 * size);
    let across = p % (4 * size);
    if down < half {
        if across < 4 * half {
            image_byte(head, across, down)
        } else {
            image_byte(torso, across - 4 * half, down)
        }
    } else {
        if across < 4 * half {
            image_byte(legs, across, down - half)
        } else {
            image_byte(feet, across - 4 * half, down - half)
        }
    }
}

/// Why an image cannot go into a square atlas; none where there is no image.
pub open spec fn optional_error(image: Option<&RawImage>, size: u32) -> Option<AtlasError> {
    match image {
        Some(image) => source_error(size, size, *image),
        None => None,
    }
}

/// Why an atlas cannot be made: its size, a missing head or torso, or the first
/// image that does not fit.
pub open spec fn atlas_error(
    head: Option<&RawImage>,
    torso: Option<&RawImage>,
    legs: Option<&RawImage>,
    feet: Option<&RawImage>,
    size: u32,
) -> Option<AtlasError> {
    if size == 0 || size % 2 != 0 || 4 * (size * size) > u32::MAX {
        Some(AtlasError::InvalidAtlasSize)
    } else if head is None || torso is None {
        Some(AtlasError::NullRequiredSource)
    } else if optional_error(head, size) is Some {
        optional_error(head, size)
    } else if optional_error(torso, size) is Some {
        optional_error(torso, size)
    } else if optional_error(legs, size) is Some {
        optional_error(legs, size)
    } else {
        optional_error(feet, size)
    }
}

/// Copies an image, if there is one, into its quadrant of a square atlas.
fn blit_optional(atlas: &mut Vec<u8>, size: u32, image: Option<&RawImage>, quadrant: Quadrant) -> (r:
    Result<(), AtlasError>)
    requires
        size > 0,
        size % 2 == 0,
        old(atlas)@.len() == 4 * (size * size),
        image matches Some(i) ==> i.well_formed(),
    ensures
        match optional_error(image, size) {
            Some(e) => r == Err::<(), AtlasError>(e),
            None => {
                &&& r is Ok
                &&& final(atlas)@ == with_optional(old(atlas)@, size, image, quadrant)
            },
        },
        final(atlas)@.len() == old(atlas)@.len(),
{
    match image {
        None => Ok(()),
        Some(image) => {
            let ghost before = atlas@;
            let r = blit_to_quadrant(atlas.as_mut_slice(), size, size, image, quadrant);
            proof {
                if source_error(size, size, *image) is None {
                    let half = (size / 2) as u32;
                    let (x, y) = quadrant.corner(half, half);
                    lemma_row_fits(
                        size as int,
                        x as int,
                        y as int,
                        image.width as int,
                        image.height - 1,
                    );
                }
            }
            r
        },
    }
}

pub open spec fn with_optional(
    atlas: Seq<u8>,
    size: u32,
    image: Option<&RawImage>,
    quadrant: Quadrant,
) -> Seq<u8> {
    let (x, y) = quadrant.corner((size / 2) as u32, (size / 2) as u32);
    match image {
        Some(image) => with_rows(
            atlas,
            size as int,
            x as int,
            y as int,
            image.pixels->0@,
            image.width as int,
            image.height as int,
        ),
        None => atlas,
    }
}

proof fn lemma_row_fits(size: int, x: int, y: int, width: int, row: int)
    requires
        0 <= x,
        0 <= width,
        x + width <= size,
        0 <= y + row < size,
    ensures
        row_end(size, x, y, width, row) <= 4 * (size * size),
{
    assert((y + row) * size <= (size - 1) * size) by (nonlinear_arith)
        requires
            y + row <= size - 1,
            0 <= size,
    ;
    assert((size - 1) * size + size == size * size) by (nonlinear_arith);
}

/// Builds a square atlas: head and torso above, legs and feet below. Legs and feet
/// may be missing; their quadrants are then transparent.
pub fn generate_runtime_atlas_impl(
    head: Option<&RawImage>,
    torso: Option<&RawImage>,
    legs: Option<&RawImage>,
    feet: Option<&RawImage>,
    target_atlas_size: u32,
) -> (r: Result<RuntimeAtlasOutput, AtlasError>)
    requires
        head matches Some(i) ==> i.well_formed(),
        torso matches Some(i) ==> i.well_formed(),
        legs matches Some(i) ==> i.well_formed(),
        feet matches Some(i) ==> i.well_formed(),
    ensures
        match atlas_error(head, torso, legs, feet, target_atlas_size) {
            Some(e) => r == Err::<RuntimeAtlasOutput, AtlasError>(e),
            None => r is Ok && is_atlas(r->Ok_0, head, torso, legs, feet, target_atlas_size),
        },
{
    if target_atlas_size == 0 || target_atlas_size % 2 != 0 {
        return Err(AtlasError::InvalidAtlasSize);
    }
    assert(0 <= target_atlas_size * target_atlas_size <= 0xffff_ffff * 0xffff_ffff)
        by (nonlinear_arith)
        requires
            0 <= target_atlas_size <= 0xffff_ffff,
    ;
    let pixel_count: u64 = target_atlas_size as u64 * target_atlas_size as u64;
    if pixel_count > 0x3fff_ffff {
        return Err(AtlasError::InvalidAtlasSize);
    }
    let total_bytes: u32 = 4 * pixel_count as u32;
    if head.is_none() || torso.is_none() {
        return Err(AtlasError::NullRequiredSource);
    }
    let mut atlas: Vec<u8> = vec![0u8; total_bytes as usize];
    let ghost blank = atlas@;
    // Every image is tried before the first error is reported.
    let first = blit_optional(&mut atlas, target_atlas_size, head, Quadrant::TopLeft);
    let second = blit_optional(&mut atlas, target_atlas_size, torso, Quadrant::TopRight);
    let third = blit_optional(&mut atlas, target_atlas_size, legs, Quadrant::BottomLeft);
    let fourth = blit_optional(&mut atlas, target_atlas_size, feet, Quadrant::BottomRight);
    first?;
    second?;
    third?;
    fourth?;
    proof {
        lemma_quadrants_apart(blank, head, torso, legs, feet, target_atlas_size);
    }
    let half: u32 = target_atlas_size / 2;
    Ok(
        RuntimeAtlasOutput {
            atlas_image: RawImage {
                width: target_atlas_size,
                height: target_atlas_size,
                pixels: Some(atlas),
                total_bytes,
            },
            quadrant_width: half,
            quadrant_height: half,
        },
    )
}

pub open spec fn is_atlas(
    output: RuntimeAtlasOutput,
    head: Option<&RawImage>,
    torso: Option<&RawImage>,
    legs: Option<&RawImage>,
    feet: Option<&RawImage>,
    size: u32,
) -> bool {
    let image = output.atlas_image;
    &&& output.quadrant_width == size / 2
    &&& output.quadrant_height == size / 2
    &&& image.width == size
    &&& image.height == size
    &&& image.total_bytes == 4 * (size * size)
    &&& image.pixels is Some
    &&& image.pixels->0@ == Seq::new(
        (4 * (size * size)) as nat,
        |p: int| atlas_byte(head, torso, legs, feet, size as int, p),
    )
}

/// Images in different quadrants do not touch each other's bytes.
proof fn lemma_quadrants_apart(
    blank: Seq<u8>,
    head: Option<&RawImage>,
    torso: Option<&RawImage>,
    legs: Option<&RawImage>,
    feet: Option<&RawImage>,
    size: u32,
)
    requires
        blank.len() == 4 * (size * size),
        forall|p: int| 0 <= p < blank.len() ==> #[trigger] blank[p] == 0,
        size > 0,
        size % 2 == 0,
        head is Some,
        torso is Some,
        optional_error(head, size) is None,
        optional_error(torso, size) is None,
        optional_error(legs, size) is None,
        optional_error(feet, size) is None,
    ensures
        with_optional(
            with_optional(
                with_optional(
                    with_optional(blank, size, head, Quadrant::TopLeft),
                    size,
                    torso,
                    Quadrant::TopRight,
                ),
                size,
                legs,
                Quadrant::BottomLeft,
            ),
            size,
            feet,
            Quadrant::BottomRight,
        ) == Seq::new(
            (4 * (size * size)) as nat,
            |p: int| atlas_byte(head, torso, legs, feet, size as int, p),
        ),
{
    let one = with_optional(blank, size, head, Quadrant::TopLeft);
    let two = with_optional(one, size, torso, Quadrant::TopRight);
    let three = with_optional(two, size, legs, Quadrant::BottomLeft);
    let four = with_optional(three, size, feet, Quadrant::BottomRight);
    let goal = Seq::new(
        (4 * (size * size)) as nat,
        |p: int| atlas_byte(head, torso, legs, feet, size as int, p),
    );
    assert forall|p: int| 0 <= p < blank.len() implies four[p] == goal[p] by {
        let stride = 4 * size;
        lemma_fundamental_div_mod(p, stride as int);
        vstd::arithmetic::div_mod::lemma_mod_bound(p, stride as int);
        vstd::arithmetic::div_mod::lemma_div_pos_is_pos(p, stride as int);
    }
    assert(four =~= goal);
}

/// Builds an atlas, and keeps the last error up to date: none after success, the
/// reason after failure.
pub fn generate_runtime_atlas(
    last_error: &mut LastError,
    head: Option<&RawImage>,
    torso: Option<&RawImage>,
    legs: Option<&RawImage>,
    feet: Option<&RawImage>,
    target_atlas_size: u32,
) -> (r: Option<RuntimeAtlasOutput>)
    requires
        head matches Some(i) ==> i.well_formed(),
        torso matches Some(i) ==> i.well_formed(),
        legs matches Some(i) ==> i.well_formed(),
        feet matches Some(i) ==> i.well_formed(),
    ensures
        final(last_error).well_formed(),
        match atlas_error(head, torso, legs, feet, target_atlas_size) {
            Some(e) => {
                &&& r is None
                &&& final(last_error).message is Some
                &&& final(last_error).message->0@ == error::recorded(
                    "generate_runtime_atlas failed: "@ + e.text(),
                )
            },
            None => {
                &&& r is Some
                &&& is_atlas(r->0, head, torso, legs, feet, target_atlas_size)
                &&& final(last_error).message is None
            },
        },
{
    clear_last_error(last_error);
    match generate_runtime_atlas_impl(head, torso, legs, feet, target_atlas_size) {
        Ok(output) => Some(output),
        Err(e) => {
            let mut m = String::from_str("generate_runtime_atlas failed: ");
            m.append(e.message().as_str());
            set_last_error(last_error, m);
            None
        },
    }
}

/// An image's pixel stands in the atlas at the same place of the image's own
/// quadrant.
pub proof fn law_atlas_holds_each_image(
    images: (Option<&RawImage>, Option<&RawImage>, Option<&RawImage>, Option<&RawImage>),
    size: u32,
    quadrant: Quadrant,
    x: int,
    y: int,
    channel: int,
)
    requires
        atlas_error(images.0, images.1, images.2, images.3, size) is None,
        image_in(images, quadrant) is Some,
        0 <= x < image_in(images, quadrant)->0.width,
        0 <= y < image_in(images, quadrant)->0.height,
        0 <= channel < 4,
    ensures
        ({
            let image = image_in(images, quadrant)->0;
            let half = (size / 2) as u32;
            let at = 4 * ((quadrant.corner(half, half).1 + y) * size
                + quadrant.corner(half, half).0 + x) + channel;
            &&& 0 <= at < 4 * (size * size)
            &&& atlas_byte(images.0, images.1, images.2, images.3, size as int, at)
                == image.pixels->0@[4 * (y * image.width + x) + channel]
        }),
{
    let image = image_in(images, quadrant)->0;
    let half = (size / 2) as u32;
    let down = quadrant.corner(half, half).1 + y;
    let across = 4 * (quadrant.corner(half, half).0 + x) + channel;
    let stride = 4 * size;
    let at = 4 * (down * size + quadrant.corner(half, half).0 + x) + channel;
    assert(at == down * stride + across) by (nonlinear_arith)
        requires
            at == 4 * (down * size + quadrant.corner(half, half).0 + x) + channel,
            across == 4 * (quadrant.corner(half, half).0 + x) + channel,
            stride == 4 * size,
    ;
    assert(0 <= down * stride <= (size - 1) * stride) by (nonlinear_arith)
        requires
            0 <= down <= size - 1,
            0 <= stride,
    ;
    assert((size - 1) * stride + stride == 4 * (size * size)) by (nonlinear_arith)
        requires
            stride == 4 * size,
    ;
    lemma_fundamental_div_mod_converse(at, stride as int, down, across);
    let width = image.width as int;
    assert(y * (4 * width) + 4 * x + channel == 4 * (y * width + x) + channel) by (nonlinear_arith);
}

pub open spec fn image_in<'a>(
    images: (
        Option<&'a RawImage>,
        Option<&'a RawImage>,
        Option<&'a RawImage>,
        Option<&'a RawImage>,
    ),
    quadrant: Quadrant,
) -> Option<&'a RawImage> {
    match quadrant {
        Quadrant::TopLeft => images.0,
        Quadrant::TopRight => images.1,
        Quadrant::BottomLeft => images.2,
        Quadrant::BottomRight => images.3,
    }
}

/// Copying an image into one quadrant leaves the bytes of the others alone.
pub proof fn law_blit_stays_in_quadrant(
    before: Seq<u8>,
    after: Seq<u8>,
    size: u32,
    source: RawImage,
    quadrant: Quadrant,
    r: Result<(), AtlasError>,
    p: int,
)
    requires
        is_blitted(before, after, size, size, source, quadrant, r),
        0 <= p < before.len(),
        ({
            let half = (size / 2) as u32;
            let (x, y) = quadrant.corner(half, half);
            let down = p / (4 * size as int);
            let across = p % (4 * size as int);
            !(y <= down < y + half && 4 * x <= across < 4 * x + 4 * half)
        }),
    ensures
        after.len() == before.len(),
        after[p] == before[p],
{
}

/// Where pixel `(x, y)` of a buffer with rows of `width` pixels has its channel.
pub open spec fn byte_at(width: int, x: int, y: int, channel: int) -> int {
    4 * (y * width + x) + channel
}

proof fn lemma_byte_at(width: int, x: int, y: int, channel: int)
    requires
        0 <= x < width,
        0 <= y,
        0 <= channel < 4,
    ensures
        byte_at(width, x, y, channel) / (4 * width) == y,
        byte_at(width, x, y, channel) % (4 * width) == 4 * x + channel,
        0 <= byte_at(width, x, y, channel) < 4 * width * (y + 1),
{
    let stride = 4 * width;
    let across = 4 * x + channel;
    let at = byte_at(width, x, y, channel);
    assert(at == y * stride + across) by (nonlinear_arith)
        requires
            at == 4 * (y * width + x) + channel,
            across == 4 * x + channel,
            stride == 4 * width,
    ;
    assert(0 <= y * stride) by (nonlinear_arith)
        requires
            0 <= y,
            0 <= stride,
    ;
    assert(stride * (y + 1) == y * stride + stride) by (nonlinear_arith);
    lemma_fundamental_div_mod_converse(at, stride, y, across);
}

/// Pixel by pixel, what copying a source into a quadrant does to an atlas buffer: the
/// source's pixel `(x, y)` comes to stand `x` to the right of and `y` below the corner of
/// the quadrant, and every pixel that no pixel of the source comes to stand on is left
/// alone. The quadrants on the right start in the middle of the width, those at the bottom
/// in the middle of the height.
pub proof fn law_blit_copies_pixel_by_pixel(
    before: Seq<u8>,
    after: Seq<u8>,
    atlas_width: u32,
    atlas_height: u32,
    source: RawImage,
    quadrant: Quadrant,
    x: int,
    y: int,
    channel: int,
)
    requires
        is_blitted(before, after, atlas_width, atlas_height, source, quadrant, Ok(())),
        0 <= x < atlas_width,
        0 <= y < atlas_height,
        0 <= channel < 4,
        byte_at(atlas_width as int, x, y, channel) < before.len(),
    ensures
        ({
            let on_the_right = quadrant is TopRight || quadrant is BottomRight;
            let at_the_bottom = quadrant is BottomLeft || quadrant is BottomRight;
            let own_x = if on_the_right { x - atlas_width / 2 } else { x };
            let own_y = if at_the_bottom { y - atlas_height / 2 } else { y };
            let at = byte_at(atlas_width as int, x, y, channel);
            &&& after.len() == before.len()
            &&& source.pixels is Some
            &&& after[at] == if 0 <= own_x < source.width && 0 <= own_y < source.height {
                source.pixels->0@[byte_at(source.width as int, own_x, own_y, channel)]
            } else {
                before[at]
            }
        }),
{
    lemma_byte_at(atlas_width as int, x, y, channel);
    let (cx, cy) = quadrant.corner((atlas_width / 2) as u32, (atlas_height / 2) as u32);
    let own_x = x - cx;
    let own_y = y - cy;
    let width = source.width as int;
    assert(own_y * (4 * width) + (4 * x + channel - 4 * cx) == 4 * (own_y * width + own_x) + channel)
        by (nonlinear_arith)
        requires
            own_x == x - cx,
    ;
}

/// A source is copied if and only if it has pixels, four bytes for each, fills at least one
/// pixel and at most its quadrant, and the buffer holds the whole atlas or at least the
/// source's last row.
pub proof fn law_fitting_source_is_copied(
    before: Seq<u8>,
    after: Seq<u8>,
    atlas_width: u32,
    atlas_height: u32,
    source: RawImage,
    quadrant: Quadrant,
    r: Result<(), AtlasError>,
)
    requires
        is_blitted(before, after, atlas_width, atlas_height, source, quadrant, r),
        before.len() >= 4 * (atlas_width * atlas_height),
    ensures
        r is Ok <==> {
            &&& source.pixels is Some
            &&& 1 <= source.width && 2 * source.width <= atlas_width
            &&& 1 <= source.height && 2 * source.height <= atlas_height
            &&& source.total_bytes == 4 * (source.width * source.height)
        },
        r is Err ==> after == before,
{
    if source_error(atlas_width, atlas_height, source) is None {
        let (x, y) = quadrant.corner((atlas_width / 2) as u32, (atlas_height / 2) as u32);
        let down = y + source.height - 1;
        assert(down * atlas_width <= (atlas_height - 1) * atlas_width) by (nonlinear_arith)
            requires
                down <= atlas_height - 1,
                0 <= atlas_width,
        ;
        assert((atlas_height - 1) * atlas_width + atlas_width == atlas_width * atlas_height)
            by (nonlinear_arith);
    }
}

/// Pixel by pixel, what stands in an atlas: the head's picture at the top left, the
/// torso's at the top right, the legs' at the bottom left and the feet's at the bottom
/// right, each from the corner of its quadrant on, and zero everywhere else.
pub proof fn law_atlas_pixel(
    output: RuntimeAtlasOutput,
    head: Option<&RawImage>,
    torso: Option<&RawImage>,
    legs: Option<&RawImage>,
    feet: Option<&RawImage>,
    size: u32,
    x: int,
    y: int,
    channel: int,
)
    requires
        atlas_error(head, torso, legs, feet, size) is None,
        is_atlas(output, head, torso, legs, feet, size),
        0 <= x < size,
        0 <= y < size,
        0 <= channel < 4,
    ensures
        ({
            let half = (size / 2) as int;
            let at = byte_at(size as int, x, y, channel);
            let own_x = if x < half { x } else { x - half };
            let own_y = if y < half { y } else { y - half };
            let image = if y < half {
                if x < half { head } else { torso }
            } else {
                if x < half { legs } else { feet }
            };
            &&& 0 <= at < output.atlas_image.pixels->0@.len()
            &&& image matches Some(picture) ==> output.atlas_image.pixels->0@[at] == if own_x
                < picture.width && own_y < picture.height {
                picture.pixels->0@[byte_at(picture.width as int, own_x, own_y, channel)]
            } else {
                0
            }
            &&& image is None ==> output.atlas_image.pixels->0@[at] == 0
        }),
{
    let half = (size / 2) as int;
    let at = byte_at(size as int, x, y, channel);
    lemma_byte_at(size as int, x, y, channel);
    assert(4 * size * (y + 1) <= 4 * (size * size)) by (nonlinear_arith)
        requires
            y + 1 <= size,
            0 <= size,
    ;
    let own_x = if x < half { x } else { x - half };
    let own_y = if y < half { y } else { y - half };
    let image = if y < half {
        if x < half { head } else { torso }
    } else {
        if x < half { legs } else { feet }
    };
    if image is Some {
        let width = image->0.width as int;
        assert(own_y * (4 * width) + (4 * own_x + channel) == 4 * (own_y * width + own_x) + channel)
            by (nonlinear_arith);
    }
}

/// An atlas is made if and only if its size is even, not zero and no more than a `u32`
/// can count bytes for, head and torso are there, and every picture that is there has
/// pixels, four bytes for each, and fits a quadrant.
pub proof fn law_when_an_atlas_is_made(
    head: Option<&RawImage>,
    torso: Option<&RawImage>,
    legs: Option<&RawImage>,
    feet: Option<&RawImage>,
    size: u32,
)
    ensures
        atlas_error(head, torso, legs, feet, size) is None <==> {
            &&& size > 0 && size % 2 == 0 && 4 * (size * size) <= u32::MAX
            &&& head is Some && torso is Some
            &&& forall|quadrant: Quadrant|
                (#[trigger] image_in((head, torso, legs, feet), quadrant)) matches Some(picture)
                    ==> {
                    &&& picture.pixels is Some
                    &&& 1 <= picture.width && 2 * picture.width <= size
                    &&& 1 <= picture.height && 2 * picture.height <= size
                    &&& picture.total_bytes == 4 * (picture.width * picture.height)
                }
        },
{
    let images = (head, torso, legs, feet);
    assert(image_in(images, Quadrant::TopLeft) == head);
    assert(image_in(images, Quadrant::TopRight) == torso);
    assert(image_in(images, Quadrant::BottomLeft) == legs);
    assert(image_in(images, Quadrant::BottomRight) == feet);
}

// ------------------------------------------------------------------------
// Texture coordinates
// ------------------------------------------------------------------------

/// The bit pattern of one half.
pub const HALF_BITS: u32 = 0x3f00_0000;

/// A texture coordinate.
#[derive(Debug, Clone, Copy, PartialEq, Eq)]
pub struct Uv {
    pub u: Single,
    pub v: Single,
}

impl Quadrant {
    /// The least and the greatest texture coordinate of the quadrant.
    pub open spec fn bounds(self) -> (Uv, Uv) {
        let zero = Single::positive_zero();
        let half = Single { bits: HALF_BITS };
        let one = Single::one();
        match self {
            Quadrant::TopLeft => (Uv { u: zero, v: zero }, Uv { u: half, v: half }),
            Quadrant::TopRight => (Uv { u: half, v: zero }, Uv { u: one, v: half }),
            Quadrant::BottomLeft => (Uv { u: zero, v: half }, Uv { u: half, v: one }),
            Quadrant::BottomRight => (Uv { u: half, v: half }, Uv { u: one, v: one }),
        }
    }

    pub fn uv_bounds(self) -> (r: (Uv, Uv))
        ensures
            r == self.bounds(),
    {
        let zero = Single { bits: ZERO_BITS };
        let half = Single { bits: HALF_BITS };
        let one = Single { bits: ONE_BITS };
        match self {
            Quadrant::TopLeft => (Uv { u: zero, v: zero }, Uv { u: half, v: half }),
            Quadrant::TopRight => (Uv { u: half, v: zero }, Uv { u: one, v: half }),
            Quadrant::BottomLeft => (Uv { u: zero, v: half }, Uv { u: half, v: one }),
            Quadrant::BottomRight => (Uv { u: half, v: half }, Uv { u: one, v: one }),
        }
    }
}

/// A coordinate of the whole texture, led into the range from `least` to
/// `greatest`.
pub open spec fn remapped(c: Single, least: Single, greatest: Single) -> Single {
    least.sum(c.product(greatest.difference(least)))
}

pub open spec fn remapped_uv(uv: Uv, quadrant: Quadrant) -> Uv {
    let (least, greatest) = quadrant.bounds();
    Uv { u: remapped(uv.u, least.u, greatest.u), v: remapped(uv.v, least.v, greatest.v) }
}

/// Rewrites texture coordinates from those of a whole texture to those of the
/// quadrant that the texture takes in the atlas.
pub fn remap_uvs_for_quadrant(uvs: &mut [Uv], quadrant: Quadrant)
    ensures
        final(uvs)@ == old(uvs)@.map_values(|uv: Uv| remapped_uv(uv, quadrant)),
        final(uvs)@.len() == old(uvs)@.len(),
        forall|j: int|
            0 <= j < old(uvs)@.len() ==> is_halved_and_moved(
                old(uvs)@[j],
                #[trigger] final(uvs)@[j],
                quadrant,
            ),
{
    let (uv_min, uv_max) = quadrant.uv_bounds();
    let range_u = uv_max.u.minus(uv_min.u);
    let range_v = uv_max.v.minus(uv_min.v);
    let ghost before = uvs@;
    let count: usize = uvs.len();
    let mut i: usize = 0;
    while i < count
        invariant
            i <= count,
            uvs@.len() == before.len() == count,
            (uv_min, uv_max) == quadrant.bounds(),
            range_u == uv_max.u.difference(uv_min.u),
            range_v == uv_max.v.difference(uv_min.v),
            forall|j: int| 0 <= j < i ==> #[trigger] uvs@[j] == remapped_uv(before[j], quadrant),
            forall|j: int| i <= j < count ==> #[trigger] uvs@[j] == before[j],
        decreases count - i,
    {
        let uv = uvs[i];
        uvs[i] = Uv {
            u: uv_min.u.plus(uv.u.times(range_u)),
            v: uv_min.v.plus(uv.v.times(range_v)),
        };
        i = i + 1;
    }
    assert(uvs@ =~= before.map_values(|uv: Uv| remapped_uv(uv, quadrant)));
    proof {
        assert forall|j: int| 0 <= j < before.len() implies is_halved_and_moved(
            before[j],
            #[trigger] uvs@[j],
            quadrant,
        ) by {
            law_remap_halves_and_moves(before[j], quadrant);
        }
    }
}

proof fn lemma_half_and_one()
    ensures
        ({
            let zero = Single::positive_zero();
            let half = Single { bits: HALF_BITS };
            let one = Single::one();
            &&& half.difference(zero) == half
            &&& one.difference(half) == half
            &&& half.sum(half) == one
        }),
{
    let zero = Single::positive_zero();
    let half = Single { bits: HALF_BITS };
    let one = Single::one();
    reveal(Single::sum);
    lemma_pow2_unfold(126);
    lemma_pow2_pos(125);
    assert(one.index() == 127 * 0x80_0000);
    assert(half.index() == 126 * 0x80_0000);
    assert(rounding::magnitude(one.index()) == 0x80_0000 * pow2(126));
    assert(rounding::magnitude(half.index()) == 0x80_0000 * pow2(125));
    assert(rounding::magnitude(half.index()) > 0);
    assert(zero.negation().index() == 0);
    assert(half.negation().index() == half.index());
    rounding::lemma_nearest_exact(half.index());
    rounding::lemma_nearest_exact(one.index());
}

/// A coordinate from 0 to 1 is led into the range of its quadrant, ends included.
pub proof fn law_remap_stays_in_quadrant(uv: Uv, quadrant: Quadrant)
    requires
        Single::positive_zero().less_or_same(uv.u),
        uv.u.less_or_same(Single::one()),
        Single::positive_zero().less_or_same(uv.v),
        uv.v.less_or_same(Single::one()),
    ensures
        ({
            let r = remapped_uv(uv, quadrant);
            let (least, greatest) = quadrant.bounds();
            &&& least.u.less_or_same(r.u)
            &&& r.u.less_or_same(greatest.u)
            &&& least.v.less_or_same(r.v)
            &&& r.v.less_or_same(greatest.v)
        }),
{
    let zero = Single::positive_zero();
    let half = Single { bits: HALF_BITS };
    lemma_remap_in_range(uv.u, zero, half);
    lemma_remap_in_range(uv.u, half, Single::one());
    lemma_remap_in_range(uv.v, zero, half);
    lemma_remap_in_range(uv.v, half, Single::one());
}

proof fn lemma_remap_in_range(c: Single, least: Single, greatest: Single)
    requires
        Single::positive_zero().less_or_same(c),
        c.less_or_same(Single::one()),
        (least == Single::positive_zero() && greatest == (Single { bits: HALF_BITS })) || (least
            == (Single { bits: HALF_BITS }) && greatest == Single::one()),
    ensures
        least.less_or_same(remapped(c, least, greatest)),
        remapped(c, least, greatest).less_or_same(greatest),
{
    let zero = Single::positive_zero();
    let half = Single { bits: HALF_BITS };
    let one = Single::one();
    lemma_half_and_one();
    let part = c.product(half);
    single::law_product_grows(c, one, half);
    single::law_product_commutes(one, half);
    single::law_product_with_one(half);
    assert(one.product(half) == half);
    assert(part.index() <= half.index());
    if c.zero() {
        single::law_product_with_zero(c, half);
    }
    assert(0 <= part.key() <= half.key());
    single::law_sum_grows(least, zero, part);
    single::law_sum_grows(least, part, half);
    single::law_sum_with_zero(least, zero);
    single::law_sum_with_zero(half, zero);
}

/// What the constants of texture coordinates stand for.
proof fn lemma_coordinate_values()
    ensures
        Single::positive_zero().value() == 0 as real,
        (Single { bits: HALF_BITS }).value() == 1 as real / 2 as real,
        Single::one().value() == 1 as real,
{
    let half = Single { bits: HALF_BITS };
    accuracy::lemma_steps();
    accuracy::lemma_value_parts(Single::positive_zero());
    single::lemma_one_is_unit();
    lemma_pow2_unfold(126);
    lemma_pow2_pos(125);
    assert(half.index() == 126 * 0x80_0000);
    assert(Single::one().index() == 127 * 0x80_0000);
    assert(rounding::magnitude(half.index()) == 0x80_0000 * pow2(125));
    assert(rounding::magnitude(Single::one().index()) == 0x80_0000 * pow2(126));
    let t = accuracy::steps_in_one();
    let h = half.scaled() as real;
    assert(Single::one().scaled() == pow2(149));
    assert(pow2(126) == 2 * pow2(125));
    assert(Single::one().scaled() == rounding::magnitude(Single::one().index()));
    assert(half.scaled() == rounding::magnitude(half.index()));
    assert(2 * half.scaled() == Single::one().scaled());
    assert(2 as real * h == t);
    assert(h / t == 1 as real / 2 as real) by (nonlinear_arith)
        requires
            2 as real * h == t,
            t > 0 as real,
    ;
    assert(t / t == 1 as real) by (nonlinear_arith)
        requires
            t > 0 as real,
    ;
}

/// How far rounding may put a remapped coordinate from where it belongs: 2^-23 of its size
/// and of 1.
pub open spec fn remap_slack(c: Single) -> real {
    2 as real * accuracy::roundoff() * (accuracy::size(c.value()) + 1 as real)
}

proof fn lemma_remap_is_accurate(c: Single, least: Single, greatest: Single, start: real)
    requires
        c.finite(),
        accuracy::size(c.value()) <= accuracy::limit(),
        (least == Single::positive_zero() && greatest == (Single { bits: HALF_BITS }) && start
            == 0 as real) || (least == (Single { bits: HALF_BITS }) && greatest == Single::one()
            && start == 1 as real / 2 as real),
    ensures
        remapped(c, least, greatest).finite(),
        accuracy::apart(
            remapped(c, least, greatest).value(),
            start + c.value() / 2 as real,
        ) <= remap_slack(c),
{
    let half = Single { bits: HALF_BITS };
    lemma_half_and_one();
    lemma_coordinate_values();
    vector_accuracy::lemma_step_is_tiny();
    accuracy::lemma_steps();
    assert(greatest.difference(least) == half);
    assert(least.finite() && half.finite());
    let x = c.value();
    let e = x / 2 as real;
    let l = accuracy::limit();
    let u = accuracy::roundoff();
    let h = accuracy::smallest_step();
    let m = accuracy::size(x);
    assert(x * half.value() == e) by (nonlinear_arith)
        requires
            half.value() == 1 as real / 2 as real,
            e == x / 2 as real,
    ;
    assert(accuracy::size(e) == m / 2 as real);
    lemma_limit_is_large();
    accuracy::law_product_is_accurate(c, half);
    let p = c.product(half).value();
    assert(u * (m / 2 as real) <= m / 0x100 as real) by (nonlinear_arith)
        requires
            u == 1 as real / 0x100_0000 as real,
            m >= 0 as real,
    ;
    assert(accuracy::apart(p, e) <= u * (m / 2 as real) + h);
    assert(accuracy::size(p) <= m / 2 as real + m / 0x100 as real + h);
    accuracy::law_sum_is_accurate(least, c.product(half));
    let sum = least.value() + p;
    let n = accuracy::size(sum);
    assert(n <= 1 as real + m);
    assert(accuracy::size(sum) <= l);
    let got = remapped(c, least, greatest).value();
    assert(accuracy::apart(got, sum) <= u * n + h);
    let n_max = 1 as real / 2 as real + m / 2 as real + m / 0x100 as real + h;
    assert(n <= n_max);
    assert(u * n <= u * n_max) by (nonlinear_arith)
        requires
            n <= n_max,
            u > 0 as real,
    ;
    assert(u * (m / 2 as real) + h + u * n_max + h <= 2 as real * u * (m + 1 as real))
        by (nonlinear_arith)
        requires
            n_max == 1 as real / 2 as real + m / 2 as real + m / 0x100 as real + h,
            u == 1 as real / 0x100_0000 as real,
            0x1_0000 as real * h <= u,
            h > 0 as real,
            m >= 0 as real,
    ;
}

proof fn lemma_limit_is_large()
    ensures
        accuracy::limit() >= 0x1_0000 as real,
{
    vstd::arithmetic::power2::lemma2_to64();
    vstd::arithmetic::power2::lemma_pow2_strictly_increases(16, 127);
}

/// Each coordinate of `after` is half of the same coordinate of `before`, moved by half of
/// the atlas for a quadrant on the right or at the bottom, up to rounding.
pub open spec fn is_halved_and_moved(before: Uv, after: Uv, quadrant: Quadrant) -> bool {
    let half = 1 as real / 2 as real;
    let left = if quadrant is TopRight || quadrant is BottomRight { half } else { 0 as real };
    let top = if quadrant is BottomLeft || quadrant is BottomRight { half } else { 0 as real };
    &&& before.u.finite() && accuracy::size(before.u.value()) <= accuracy::limit() ==> {
        &&& after.u.finite()
        &&& accuracy::apart(after.u.value(), left + before.u.value() / 2 as real) <= remap_slack(
            before.u,
        )
    }
    &&& before.v.finite() && accuracy::size(before.v.value()) <= accuracy::limit() ==> {
        &&& after.v.finite()
        &&& accuracy::apart(after.v.value(), top + before.v.value() / 2 as real) <= remap_slack(
            before.v,
        )
    }
}

/// Each coordinate is remapped by itself: a coordinate of the whole texture is halved, and
/// moved by half of the atlas for a quadrant on the right or at the bottom, up to rounding.
/// So `u` stays across and `v` stays down.
pub proof fn law_remap_halves_and_moves(uv: Uv, quadrant: Quadrant)
    ensures
        ({
            let r = remapped_uv(uv, quadrant);
            let half = 1 as real / 2 as real;
            let left = if quadrant is TopRight || quadrant is BottomRight { half } else { 0 as real };
            let top = if quadrant is BottomLeft || quadrant is BottomRight { half } else { 0 as real };
            &&& uv.u.finite() && accuracy::size(uv.u.value()) <= accuracy::limit() ==> {
                &&& r.u.finite()
                &&& accuracy::apart(r.u.value(), left + uv.u.value() / 2 as real) <= remap_slack(
                    uv.u,
                )
            }
            &&& uv.v.finite() && accuracy::size(uv.v.value()) <= accuracy::limit() ==> {
                &&& r.v.finite()
                &&& accuracy::apart(r.v.value(), top + uv.v.value() / 2 as real) <= remap_slack(
                    uv.v,
                )
            }
        }),
{
    let zero = Single::positive_zero();
    let half = Single { bits: HALF_BITS };
    let start = 1 as real / 2 as real;
    if uv.u.finite() && accuracy::size(uv.u.value()) <= accuracy::limit() {
        lemma_remap_is_accurate(uv.u, zero, half, 0 as real);
        lemma_remap_is_accurate(uv.u, half, Single::one(), start);
    }
    if uv.v.finite() && accuracy::size(uv.v.value()) <= accuracy::limit() {
        lemma_remap_is_accurate(uv.v, zero, half, 0 as real);
        lemma_remap_is_accurate(uv.v, half, Single::one(), start);
    }
}

/// The remapped `u` depends on `u` alone and the remapped `v` on `v` alone, bit for bit,
/// whatever the numbers.
pub proof fn law_remap_keeps_coordinates_apart(a: Uv, b: Uv, quadrant: Quadrant)
    ensures
        a.u == b.u ==> remapped_uv(a, quadrant).u == remapped_uv(b, quadrant).u,
        a.v == b.v ==> remapped_uv(a, quadrant).v == remapped_uv(b, quadrant).v,
{
}

/// A remapped coordinate leads to where the pixel was copied. A texture as large as its
/// quadrant has the point `(u, v)` at `u` of its width and `v` of its height from its own
/// corner; in the atlas the remapped coordinate leads as far from the quadrant's corner, up
/// to rounding.
pub proof fn law_remap_follows_the_pixels(uv: Uv, quadrant: Quadrant, size: u32)
    requires
        size % 2 == 0,
        uv.u.finite(),
        uv.v.finite(),
        accuracy::size(uv.u.value()) <= accuracy::limit(),
        accuracy::size(uv.v.value()) <= accuracy::limit(),
    ensures
        ({
            let r = remapped_uv(uv, quadrant);
            let half = (size / 2) as u32;
            let (x, y) = quadrant.corner(half, half);
            let across = x as real + uv.u.value() * half as real;
            let down = y as real + uv.v.value() * half as real;
            &&& accuracy::apart(r.u.value() * size as real, across) <= remap_slack(uv.u)
                * size as real
            &&& accuracy::apart(r.v.value() * size as real, down) <= remap_slack(uv.v)
                * size as real
        }),
{
    law_remap_halves_and_moves(uv, quadrant);
    let r = remapped_uv(uv, quadrant);
    let half = (size / 2) as u32;
    let (x, y) = quadrant.corner(half, half);
    let s = size as real;
    assert(s == 2 as real * half as real);
    let one_half = 1 as real / 2 as real;
    let left = if quadrant is TopRight || quadrant is BottomRight { one_half } else { 0 as real };
    let top = if quadrant is BottomLeft || quadrant is BottomRight { one_half } else { 0 as real };
    lemma_scaled_up(r.u.value(), uv.u.value(), left, x as real, half as real, s, remap_slack(uv.u));
    lemma_scaled_up(r.v.value(), uv.v.value(), top, y as real, half as real, s, remap_slack(uv.v));
}

proof fn lemma_scaled_up(
    got: real,
    c: real,
    start: real,
    corner: real,
    half: real,
    size: real,
    slack: real,
)
    requires
        accuracy::apart(got, start + c / 2 as real) <= slack,
        size == 2 as real * half,
        half >= 0 as real,
        corner == start * size,
    ensures
        accuracy::apart(got * size, corner + c * half) <= slack * size,
{
    let d = got - (start + c / 2 as real);
    assert(got * size - (corner + c * half) == d * size) by (nonlinear_arith)
        requires
            d == got - (start + c / 2 as real),
            size == 2 as real * half,
            corner == start * size,
    ;
    vector_accuracy::lemma_multiply_order(size, d, slack);
    vector_accuracy::lemma_multiply_order(size, -d, slack);
    assert(size * -d == -(d * size)) by (nonlinear_arith);
    assert(size * d == d * size) by (nonlinear_arith);
    assert(size * slack == slack * size) by (nonlinear_arith);
}

} // verus!
