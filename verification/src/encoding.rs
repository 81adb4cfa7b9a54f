//! The image file: a finished raster as the bytes of an 8-bit greyscale PNG.

use vstd::prelude::*;

verus! {

/// The error type of the encoder, carried through as it came.
#[verifier::external_type_specification]
#[verifier::external_body]
pub struct ExIoError(std::io::Error);

/// The PNG file that `image`'s encoder writes for an 8-bit greyscale raster of
/// `width` by `height` pixels, or `None` where it reports an error. Nothing is
/// said here of the bytes themselves; the encoder alone decides them.
pub uninterp spec fn gray_png(pixels: Seq<u8>, width: u32, height: u32) -> Option<Seq<u8>>;

/// Why a raster was not encoded.
#[derive(Debug)]
pub enum EncodeError {
    /// The width or the height is zero.
    EmptyBounds,
    /// A dimension does not fit where the file format or the encoder keeps it.
    TooLarge,
    /// The buffer does not hold `width * height` bytes.
    WrongLength,
    /// The encoder reported an error.
    Encoder(std::io::Error),
}

impl From<std::io::Error> for EncodeError {
    /// An error of the encoder, as this library reports it.
    fn from(error: std::io::Error) -> (fault: EncodeError) {
        EncodeError::Encoder(error)
    }
}

impl vstd::std_specs::convert::FromSpecImpl<std::io::Error> for EncodeError {
    open spec fn obeys_from_spec() -> bool {
        true
    }

    open spec fn from_spec(error: std::io::Error) -> EncodeError {
        EncodeError::Encoder(error)
    }
}

/// The largest width whose row, counted in bits, fits in `usize` and whose
/// value fits in the 32 bits that the file format has for it.
pub open spec fn max_width() -> int {
    if usize::MAX / 8 < u32::MAX {
        (usize::MAX / 8) as int
    } else {
        u32::MAX as int
    }
}

/// What stands in the way of encoding a buffer of `len` bytes as a raster of
/// `bounds`, if anything: the first of the three checks that fails.
pub open spec fn dimension_fault(len: nat, bounds: (usize, usize)) -> Option<EncodeError> {
    if bounds.0 == 0 || bounds.1 == 0 {
        Some(EncodeError::EmptyBounds)
    } else if bounds.0 > max_width() || bounds.1 > u32::MAX {
        Some(EncodeError::TooLarge)
    } else if len != bounds.0 * bounds.1 {
        Some(EncodeError::WrongLength)
    } else {
        None
    }
}

/// What [`encode_image`] may return for a buffer and its bounds: the fault of
/// the dimensions where there is one, and else the file or the failure of the
/// encoder.
pub open spec fn encodes_as(
    pixels: Seq<u8>,
    bounds: (usize, usize),
    outcome: Result<Vec<u8>, EncodeError>,
) -> bool {
    match outcome {
        Ok(bytes) => {
            &&& dimension_fault(pixels.len(), bounds) is None
            &&& gray_png(pixels, bounds.0 as u32, bounds.1 as u32) == Some(bytes@)
        },
        Err(EncodeError::Encoder(_)) => {
            &&& dimension_fault(pixels.len(), bounds) is None
            &&& gray_png(pixels, bounds.0 as u32, bounds.1 as u32) is None
        },
        Err(fault) => dimension_fault(pixels.len(), bounds) == Some(fault),
    }
}

/// Calls `image::png::PNGEncoder::encode` on a writer that is a byte vector,
/// with the colour type `Gray(8)`, and returns what was written.
///
/// Not proved, but claimed of the encoder: given a buffer of `width * height`
/// bytes, both dimensions positive and a row whose bit count fits in `usize`,
/// it returns; and what it wrote, or that it failed, depends on the pixels and
/// the two dimensions only, which is what [`gray_png`] names.
#[verifier::external_body]
fn encode_gray(pixels: &[u8], width: u32, height: u32) -> (outcome: Result<Vec<u8>, std::io::Error>)
    requires
        width > 0,
        height > 0,
        8 * width <= usize::MAX,
        pixels@.len() == width * height,
    ensures
        gray_png(pixels@, width, height) == match outcome {
            Ok(bytes) => Some(bytes@),
            Err(_) => None::<Seq<u8>>,
        },
{
    let mut bytes = Vec::new();
    let encoder = image::png::PNGEncoder::new(&mut bytes);
    match encoder.encode(pixels, width, height, image::ColorType::Gray(8)) {
        Ok(()) => Ok(bytes),
        Err(error) => Err(error),
    }
}

/// The dimensions of a raster as the file format holds them, after checking
/// that a buffer of `len` bytes can be encoded as a raster of `bounds`.
pub fn png_dimensions(len: usize, bounds: (usize, usize)) -> (outcome: Result<(u32, u32), EncodeError>)
    ensures
        match outcome {
            Ok((width, height)) => {
                &&& dimension_fault(len as nat, bounds) is None
                &&& width == bounds.0
                &&& height == bounds.1
            },
            Err(fault) => dimension_fault(len as nat, bounds) == Some(fault),
        },
{
    let (width, height) = bounds;
    if width == 0 || height == 0 {
        return Err(EncodeError::EmptyBounds);
    }
    if width > usize::MAX / 8 || width > u32::MAX as usize || height > u32::MAX as usize {
        return Err(EncodeError::TooLarge);
    }
    match width.checked_mul(height) {
        Some(size) if size == len => Ok((width as u32, height as u32)),
        _ => Err(EncodeError::WrongLength),
    }
}

/// Encodes a finished raster as an 8-bit greyscale PNG file, held in memory.
///
/// The raster is checked first, see [`dimension_fault`]; one that passes is
/// handed to the encoder, and the file or the error is what the encoder gave.
pub fn encode_image(pixels: &[u8], bounds: (usize, usize)) -> (outcome: Result<Vec<u8>, EncodeError>)
    ensures
        encodes_as(pixels@, bounds, outcome),
{
    match png_dimensions(pixels.len(), bounds) {
        Err(fault) => Err(fault),
        Ok((width, height)) => match encode_gray(pixels, width, height) {
            Ok(bytes) => Ok(bytes),
            Err(error) => Err(EncodeError::from(error)),
        },
    }
}

/// Encoding the same raster twice gives the same file, byte for byte, or
/// fails both times in the same way.
pub proof fn lemma_encoding_repeatable(
    pixels: Seq<u8>,
    bounds: (usize, usize),
    first: Result<Vec<u8>, EncodeError>,
    second: Result<Vec<u8>, EncodeError>,
)
    requires
        encodes_as(pixels, bounds, first),
        encodes_as(pixels, bounds, second),
    ensures
        match (first, second) {
            (Ok(a), Ok(b)) => a@ == b@,
            (Err(EncodeError::Encoder(_)), Err(EncodeError::Encoder(_))) => true,
            (Err(a), Err(b)) => a == b,
            _ => false,
        },
{
}

} // verus!
