use vstd::prelude::*;
use crate::heightmap::{Heightmap, RtinError};
use crate::label::is_power_of_two;
use crate::rtin::{is_rtin_of, preprocess_heightmap, valid_side, RtinData, MAX_GRID_SIZE};

verus! {

#[verifier::external_type_specification]
#[verifier::external_body]
pub struct ExImageError(image::ImageError);

/// The 16-bit greyscale grid that the PNG bytes `b` decode to (width,
/// height, row-major values), or `None` when they do not decode.
pub uninterp spec fn luma16_of(b: Seq<u8>) -> Option<(u32, u32, Seq<u16>)>;

/// Relies on `image::load_from_memory_with_format` with the built-in PNG
/// decoder, which reaches no registered format hook, and on
/// `DynamicImage::into_luma16`: whether the bytes decode, and to which grid,
/// depends on the bytes alone; an image buffer holds at least
/// `width * height` values of its single channel.
#[verifier::external_body]
fn decode_luma16(bytes: &[u8]) -> (r: Result<(u32, u32, Vec<u16>), image::ImageError>)
    ensures
        r is Ok <==> luma16_of(bytes@) is Some,
        r matches Ok((w, h, px)) ==> luma16_of(bytes@) == Some((w, h, px@)) && px@.len() >= w * h,
{
    let img = image::load_from_memory_with_format(bytes, image::ImageFormat::Png)?.into_luma16();
    let (w, h) = img.dimensions();
    Ok((w, h, img.into_raw()))
}

/// What preprocessing the decoded grid `(w, h, px)` yields: the checks of
/// `preprocess_heightmap` in order, with `TooLarge` for a valid side beyond
/// `MAX_GRID_SIZE`.
pub open spec fn is_grid_result(w: u32, h: u32, px: Seq<u16>, r: Result<RtinData, RtinError>) -> bool {
    if px.len() < w * h {
        r == Err::<RtinData, RtinError>(RtinError::ImageDecode)
    } else if w != h {
        r == Err::<RtinData, RtinError>(RtinError::InvalidShape)
    } else if !valid_side(w as nat) {
        r == Err::<RtinData, RtinError>(RtinError::InvalidSize)
    } else if w > MAX_GRID_SIZE {
        r == Err::<RtinData, RtinError>(RtinError::TooLarge)
    } else {
        r matches Ok(d) && d.wf() && exists|hm: Heightmap|
            hm.width == w && hm.height == h && hm.pixels@ == px.take(w * h) && #[trigger] is_rtin_of(
                d,
                &hm,
            )
    }
}

/// Preprocesses a decoded grid of `width * height` row-major values.
pub fn preprocess_grid(width: u32, height: u32, pixels: Vec<u16>) -> (r: Result<RtinData, RtinError>)
    ensures
        is_grid_result(width, height, pixels@, r),
{
    let hm = match Heightmap::from_vec(width, height, pixels) {
        Some(hm) => hm,
        None => return Err(RtinError::ImageDecode),
    };
    if hm.width != hm.height {
        return Err(RtinError::InvalidShape);
    }
    if hm.width < 3 || !is_power_of_two(hm.width - 1) {
        return Err(RtinError::InvalidSize);
    }
    if hm.width > MAX_GRID_SIZE {
        return Err(RtinError::TooLarge);
    }
    let r = preprocess_heightmap(&hm);
    proof {
        if r is Ok {
            assert(is_rtin_of(r->Ok_0, &hm));
        }
    }
    r
}

/// Decodes an in-memory PNG image to a 16-bit greyscale grid.
pub fn heightmap_from_bytes(bytes: &[u8]) -> (r: Result<Heightmap, RtinError>)
    ensures
        r is Ok <==> luma16_of(bytes@) is Some,
        r matches Err(e) ==> e == RtinError::ImageDecode,
        r matches Ok(hm) ==> hm.wf() && (luma16_of(bytes@) matches Some(g) && hm.width == g.0
            && hm.height == g.1 && hm.pixels@ == g.2.take(g.0 * g.1)),
{
    match decode_luma16(bytes) {
        Ok((w, h, px)) => match Heightmap::from_vec(w, h, px) {
            Some(hm) => Ok(hm),
            None => Err(RtinError::ImageDecode),
        },
        Err(_) => Err(RtinError::ImageDecode),
    }
}

/// Decodes an in-memory PNG image to 16-bit grey and preprocesses it.
pub fn preprocess_heightmap_from_bytes(bytes: &[u8]) -> (r: Result<RtinData, RtinError>)
    ensures
        match luma16_of(bytes@) {
            Some(g) => is_grid_result(g.0, g.1, g.2, r),
            None => r == Err::<RtinData, RtinError>(RtinError::ImageDecode),
        },
{
    match decode_luma16(bytes) {
        Ok((w, h, px)) => preprocess_grid(w, h, px),
        Err(_) => Err(RtinError::ImageDecode),
    }
}

} // verus!
