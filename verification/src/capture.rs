//! Offscreen rendering: one frame as a PNG without a window.
//!
//! Useful for producing figures for teaching material, and it is how the
//! renderer is checked on a machine with no display (or a locked screen).
//!
//! This is the one place that deliberately copies GPU memory back to the host,
//! and it copies the *rendered image*, never the lattice.

use vstd::prelude::*;

verus! {

/// Buffer rows in a texture-to-buffer copy must start on a 256-byte boundary.
pub const ROW_ALIGN: u32 = 256;

/// Bytes of one pixel.
pub const PIXEL: u32 = 4;

/// Bytes of a row of `width` pixels with the padding up to the boundary.
pub open spec fn padded_row(width: nat) -> nat {
    (PIXEL as nat * width + ROW_ALIGN as nat - 1) as nat / ROW_ALIGN as nat * ROW_ALIGN as nat
}

proof fn lemma_padded_row(width: nat)
    ensures
        padded_row(width) >= PIXEL as nat * width,
        padded_row(width) < PIXEL as nat * width + ROW_ALIGN,
        padded_row(width) % ROW_ALIGN as nat == 0,
{
}

/// A row holds four bytes for each pixel, and is padded to the next multiple of 256 bytes and
/// no further.
pub proof fn law_rows_are_padded_to_the_boundary(width: nat)
    ensures
        padded_row(width) % 256 == 0,
        4 * width <= padded_row(width) < 4 * width + 256,
{
    lemma_padded_row(width);
}

/// Bytes of a row of `width` pixels with the padding up to the boundary.
pub fn bytes_per_row(width: u32) -> (r: u32)
    requires
        padded_row(width as nat) <= u32::MAX,
    ensures
        r == padded_row(width as nat),
{
    proof {
        lemma_padded_row(width as nat);
    }
    let bare: u32 = width * PIXEL;
    if bare % ROW_ALIGN == 0 {
        bare
    } else {
        (bare / ROW_ALIGN + 1) * ROW_ALIGN
    }
}

/// Bytes of the buffer an image is copied to.
pub fn staging_size(width: u32, height: u32) -> (r: u64)
    requires
        padded_row(width as nat) * height <= u32::MAX,
        padded_row(width as nat) <= u32::MAX,
    ensures
        r == padded_row(width as nat) * height,
{
    let row: u32 = bytes_per_row(width);
    (row * height) as u64
}

/// The pixels of the first `rows` rows, without the padding between them.
pub open spec fn pixels(view: Seq<u8>, width: nat, rows: nat) -> Seq<u8>
    decreases rows,
{
    if rows == 0 {
        Seq::empty()
    } else {
        let start = padded_row(width) * (rows - 1);
        pixels(view, width, (rows - 1) as nat) + view.subrange(
            start,
            start + PIXEL as nat * width,
        )
    }
}

/// Drop the padding each row carries for the alignment.
pub fn unpadded(view: &Vec<u8>, width: u32, height: u32) -> (r: Vec<u8>)
    requires
        padded_row(width as nat) <= u32::MAX,
        padded_row(width as nat) * height <= u32::MAX,
        padded_row(width as nat) * height <= view@.len(),
    ensures
        r@ == pixels(view@, width as nat, height as nat),
{
    proof {
        lemma_padded_row(width as nat);
    }
    let row: usize = bytes_per_row(width) as usize;
    let bare: usize = width as usize * PIXEL as usize;
    let mut r: Vec<u8> = Vec::new();
    let mut y: usize = 0;
    while y < height as usize
        invariant
            y <= height,
            row == padded_row(width as nat),
            bare == PIXEL * width,
            bare <= row,
            row * height <= u32::MAX,
            row * height <= view@.len(),
            r@ == pixels(view@, width as nat, y as nat),
        decreases height - y,
    {
        assert(row * y + row <= row * height) by (nonlinear_arith)
            requires
                y + 1 <= height,
                row >= 0,
        ;
        let start: usize = row * y;
        let ghost before = r@;
        let mut x: usize = 0;
        assert(r@ =~= before + view@.subrange(start as int, start + x));
        while x < bare
            invariant
                x <= bare,
                start + bare <= view@.len(),
                start + bare <= u32::MAX,
                r@ == before + view@.subrange(start as int, start + x),
            decreases bare - x,
        {
            r.push(view[start + x]);
            x = x + 1;
            assert(r@ =~= before + view@.subrange(start as int, start + x));
        }
        y = y + 1;
    }
    r
}

/// Every pixel is where it was, one row after the other.
pub proof fn law_pixels_stay_in_place(view: Seq<u8>, width: nat, rows: nat, y: nat, k: nat)
    requires
        y < rows,
        k < PIXEL * width,
        padded_row(width) * rows <= view.len(),
    ensures
        pixels(view, width, rows).len() == PIXEL * width * rows,
        pixels(view, width, rows)[(PIXEL * width * y + k) as int] == view[(padded_row(width) * y
            + k) as int],
    decreases rows,
{
    lemma_padded_row(width);
    let row = PIXEL as nat * width;
    let pad = padded_row(width);
    let last = (rows - 1) as nat;
    assert(pad * last + pad == pad * rows) by (nonlinear_arith)
        requires
            last + 1 == rows,
    ;
    lemma_pixels_len(view, width, rows);
    lemma_pixels_len(view, width, last);
    if y < last {
        law_pixels_stay_in_place(view, width, last, y, k);
        assert(row * y + k < row * last) by (nonlinear_arith)
            requires
                y + 1 <= last,
                k < row,
        ;
    }
}

proof fn lemma_pixels_len(view: Seq<u8>, width: nat, rows: nat)
    requires
        padded_row(width) * rows <= view.len(),
    ensures
        pixels(view, width, rows).len() == PIXEL * width * rows,
    decreases rows,
{
    lemma_padded_row(width);
    let row = PIXEL as nat * width;
    let pad = padded_row(width);
    if rows > 0 {
        let last = (rows - 1) as nat;
        assert(pad * last + pad == pad * rows && row * last + row == row * rows)
            by (nonlinear_arith)
            requires
                last + 1 == rows,
        ;
        lemma_pixels_len(view, width, last);
    } else {
        assert(row * 0 == 0);
    }
}

// ---------------------------------------------------------------------------
//  PNG
// ---------------------------------------------------------------------------

/// What the `png` crate reports when it cannot encode.
#[verifier::external_type_specification]
#[verifier::external_body]
pub struct ExEncodingError(png::EncodingError);

/// What the `png` crate gives back.
pub type Encoded = Result<Vec<u8>, png::EncodingError>;

/// The file the `png` crate makes of an eight-bit RGBA image.
pub uninterp spec fn png_image(width: u32, height: u32, pixels: Seq<u8>) -> Seq<u8>;

/// `png::Encoder` with eight-bit RGBA, `write_header`, `write_image_data`, into
/// memory.
///
/// The header is refused for a side of no pixels, the data unless there are
/// four bytes for each pixel; writing to memory does not fail.  The file is a
/// function of the size and the pixels.
#[verifier::external_body]
pub(crate) fn encode_png(width: u32, height: u32, data: &Vec<u8>) -> (r: Encoded)
    requires
        4 * width * height <= usize::MAX,
        4 * width < usize::MAX,
    ensures
        match r {
            Ok(file) => {
                &&& width > 0 && height > 0 && data@.len() == 4 * width * height
                &&& file@ == png_image(width, height, data@)
            },
            Err(_) => width == 0 || height == 0 || data@.len() != 4 * width * height,
        },
{
    let mut file: Vec<u8> = Vec::new();
    let mut encoder = png::Encoder::new(&mut file, width, height);
    encoder.set_color(png::ColorType::Rgba);
    encoder.set_depth(png::BitDepth::Eight);
    encoder.write_header()?.write_image_data(data)?;
    Ok(file)
}

/// Why an image cannot be written.
#[derive(Clone, Copy, Debug, PartialEq, Eq, Structural)]
pub enum CaptureError {
    /// The PNG header was refused: a side has no pixels.
    Header,
    /// The PNG data was refused.
    Data,
}

/// The PNG file of pixels that are not padded.
pub fn png_of_pixels(width: u32, height: u32, data: &Vec<u8>) -> (r: Result<
    Vec<u8>,
    CaptureError,
>)
    requires
        4 * width * height <= usize::MAX,
        4 * width < usize::MAX,
    ensures
        match r {
            Ok(file) => width > 0 && height > 0 && data@.len() == 4 * width * height && file@
                == png_image(width, height, data@),
            Err(CaptureError::Header) => width == 0 || height == 0,
            Err(CaptureError::Data) => width > 0 && height > 0 && data@.len() != 4 * width
                * height,
        },
{
    match encode_png(width, height, data) {
        Ok(file) => Ok(file),
        Err(_) => if width == 0 || height == 0 {
            Err(CaptureError::Header)
        } else {
            Err(CaptureError::Data)
        },
    }
}

/// The PNG file of an image as it was copied from the device, row by row with
/// padding.
pub fn png_of_copy(view: &Vec<u8>, width: u32, height: u32) -> (r: Result<Vec<u8>, CaptureError>)
    requires
        padded_row(width as nat) <= u32::MAX,
        padded_row(width as nat) * height <= u32::MAX,
        padded_row(width as nat) * height <= view@.len(),
    ensures
        match r {
            Ok(file) => width > 0 && height > 0 && file@ == png_image(
                width,
                height,
                pixels(view@, width as nat, height as nat),
            ),
            Err(why) => why == CaptureError::Header && (width == 0 || height == 0),
        },
{
    let data: Vec<u8> = unpadded(view, width, height);
    proof {
        lemma_padded_row(width as nat);
        lemma_pixels_len(view@, width as nat, height as nat);
        assert(4 * width * height <= padded_row(width as nat) * height) by (nonlinear_arith)
            requires
                4 * width <= padded_row(width as nat),
                height >= 0,
        ;
        assert(PIXEL * width * height == 4 * width * height);
    }
    png_of_pixels(width, height, &data)
}

} // verus!
