//! Pictures in PNG files.
use crate::image::Gray;
use crate::seqs::prefix;
use vstd::prelude::*;

verus! {

/// What `png::Decoder::read_info` reads of a file: width, height, the number
/// of the color type and the number of bits per sample. None where the file
/// is not a picture that the decoder can read.
pub uninterp spec fn png_info(bytes: Seq<u8>) -> Option<(u32, u32, u8, u8)>;

/// What `png::Reader::next_frame` makes of the first frame of a file, with a
/// zeroed buffer of `size` bytes: the width and the height of the frame, and
/// the buffer. None where the frame cannot be read or does not fit.
pub uninterp spec fn png_frame(bytes: Seq<u8>, size: nat) -> Option<(u32, u32, Seq<u8>)>;

/// The number of the color type that has one sample of luma per pixel.
pub const GRAYSCALE: u8 = 0;

/// Why a picture cannot be used.
#[derive(Clone, Copy, Debug, PartialEq, Eq, Structural)]
pub enum PictureError {
    /// The file is not a picture or is damaged.
    Unreadable,
    /// The picture is not in 8-bit grayscale.
    Unsupported,
    /// The picture has more pixels than a list can hold.
    TooLarge,
}

/// Calls `png::Decoder::read_info`. Trusted: its result is a function of the
/// bytes, here named `png_info`.
#[verifier::external_body]
fn read_info(bytes: &[u8]) -> (r: Option<(u32, u32, u8, u8)>)
    ensures
        r == png_info(bytes@),
{
    let reader = png::Decoder::new(bytes).read_info().ok()?;
    let info = reader.info();
    Some((info.width, info.height, info.color_type as u8, info.bit_depth as u8))
}

/// Calls `png::Reader::next_frame` on a zeroed buffer of `size` bytes. Trusted:
/// its result is a function of the bytes and the size, here named `png_frame`,
/// and the buffer keeps its size.
#[verifier::external_body]
fn next_frame(bytes: &[u8], size: usize) -> (r: Option<(u32, u32, Vec<u8>)>)
    requires
        size <= isize::MAX,
    ensures
        match r {
            Some((w, h, px)) => png_frame(bytes@, size as nat) == Some((w, h, px@)) && px@.len()
                == size,
            None => png_frame(bytes@, size as nat) is None,
        },
{
    let mut reader = png::Decoder::new(bytes).read_info().ok()?;
    let mut buffer = vec![0u8; size];
    let frame = reader.next_frame(&mut buffer).ok()?;
    Some((frame.width, frame.height, buffer))
}

/// What is made of the description of a picture: its width and height, or why
/// it cannot be used.
pub open spec fn usable(info: Option<(u32, u32, u8, u8)>) -> Result<(u32, u32), PictureError> {
    match info {
        None => Err(PictureError::Unreadable),
        Some((w, h, color, bits)) => if color != GRAYSCALE || bits != 8 {
            Err(PictureError::Unsupported)
        } else if w * h > isize::MAX {
            Err(PictureError::TooLarge)
        } else {
            Ok((w, h))
        },
    }
}

/// What is made of the description of a picture.
pub fn usable_size(info: Option<(u32, u32, u8, u8)>) -> (r: Result<(u32, u32), PictureError>)
    ensures
        r == usable(info),
        r matches Ok((w, h)) ==> w * h <= isize::MAX,
{
    match info {
        None => Err(PictureError::Unreadable),
        Some((w, h, color, bits)) => {
            if color != GRAYSCALE || bits != 8 {
                return Err(PictureError::Unsupported);
            }
            assert(w * h <= 0xffff_ffff * 0xffff_ffff) by (nonlinear_arith)
                requires
                    w <= 0xffff_ffff,
                    h <= 0xffff_ffff,
            ;
            if w as u64 * h as u64 > isize::MAX as u64 {
                return Err(PictureError::TooLarge);
            }
            Ok((w, h))
        },
    }
}

/// The picture that a frame makes, whose pixels stand at the start of a buffer:
/// the width, the height and the pixels.
pub open spec fn framed(frame: Option<(u32, u32, Seq<u8>)>) -> Result<
    (int, int, Seq<u8>),
    PictureError,
> {
    match frame {
        None => Err(PictureError::Unreadable),
        Some((w, h, px)) => if w * h > px.len() {
            Err(PictureError::Unreadable)
        } else {
            Ok((w as int, h as int, px.take(w * h)))
        },
    }
}

/// Whether a picture is the expected one.
pub open spec fn is_picture(
    r: Result<Gray, PictureError>,
    expected: Result<(int, int, Seq<u8>), PictureError>,
) -> bool {
    match (r, expected) {
        (Ok(g), Ok((w, h, px))) => g.wf() && g.w == w && g.h == h && g.px@ == px,
        (Err(e), Err(x)) => e == x,
        _ => false,
    }
}

/// The picture that a frame makes.
pub fn frame_picture(frame: Option<(u32, u32, Vec<u8>)>) -> (r: Result<Gray, PictureError>)
    ensures
        is_picture(
            r,
            framed(
                match frame {
                    Some((w, h, px)) => Some((w, h, px@)),
                    None => None,
                },
            ),
        ),
{
    match frame {
        None => Err(PictureError::Unreadable),
        Some((w, h, px)) => {
            assert(w * h <= 0xffff_ffff * 0xffff_ffff) by (nonlinear_arith)
                requires
                    w <= 0xffff_ffff,
                    h <= 0xffff_ffff,
            ;
            let n = w as u64 * h as u64;
            if n > px.len() as u64 {
                return Err(PictureError::Unreadable);
            }
            let px = prefix(&px, n as usize);
            Ok(Gray { w: w as usize, h: h as usize, px })
        },
    }
}

/// The picture in the bytes of a PNG file, which must be in 8-bit grayscale.
/// Of an animation it is the first frame.
pub fn read_png(bytes: &[u8]) -> (r: Result<Gray, PictureError>)
    ensures
        is_picture(
            r,
            match usable(png_info(bytes@)) {
                Err(e) => Err(e),
                Ok((w, h)) => framed(png_frame(bytes@, (w * h) as nat)),
            },
        ),
{
    match usable_size(read_info(bytes)) {
        Err(e) => Err(e),
        Ok((w, h)) => frame_picture(next_frame(bytes, w as usize * h as usize)),
    }
}

} // verus!
