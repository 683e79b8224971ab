//! The PNG codec: what it decodes from and encodes to bytes.
use vstd::prelude::*;

verus! {

/// The PNG number of the RGB color type.
pub const PNG_RGB: u8 = 2;

/// The PNG number of the RGBA color type.
pub const PNG_RGBA: u8 = 6;

/// What the PNG codec decodes from `data`: the first frame's width, height, bit
/// depth, color type (as PNG numbers it) and samples, or `None` when it fails.
pub uninterp spec fn png_frame(data: Seq<u8>) -> Option<(u32, u32, u8, u8, Seq<u8>)>;

/// What the PNG codec encodes for an 8-bit RGB image of `width` by `height`
/// pixels holding `samples`, or `None` when it fails.
pub uninterp spec fn png_rgb8_encoded(width: u32, height: u32, samples: Seq<u8>) -> Option<
    Seq<u8>,
>;

/// Relies on png's `Decoder` (`new`, `read_info`, `output_buffer_size`,
/// `next_frame`) to read the first frame of the PNG held in `data`. It reads
/// from memory only, so the result depends on the bytes alone.
#[verifier::external_body]
pub(crate) fn decode_png_frame(data: &[u8]) -> (r: Option<(u32, u32, u8, u8, Vec<u8>)>)
    ensures
        match r {
            Some(f) => png_frame(data@) == Some((f.0, f.1, f.2, f.3, f.4@)),
            None => png_frame(data@) == None::<(u32, u32, u8, u8, Seq<u8>)>,
        },
{
    let mut reader = png::Decoder::new(data).read_info().ok()?;
    let mut buf = vec![0; reader.output_buffer_size()];
    let info = reader.next_frame(&mut buf).ok()?;
    buf.truncate(info.buffer_size());
    Some((info.width, info.height, info.bit_depth as u8, info.color_type as u8, buf))
}

/// Relies on png's `Encoder` (`new`, `set_color`, `set_depth`, `write_header`,
/// `write_image_data`, `finish`) to write an 8-bit RGB PNG into memory; the
/// result depends on the arguments alone. `write_image_data` multiplies the
/// row length by the height unchecked, so the samples must be exactly
/// `3 * width * height` bytes, which keeps that product in range.
#[verifier::external_body]
pub(crate) fn encode_png_rgb8(width: u32, height: u32, samples: &[u8]) -> (r: Option<Vec<u8>>)
    requires
        samples@.len() == 3 * width * height,
    ensures
        match r {
            Some(v) => png_rgb8_encoded(width, height, samples@) == Some(v@),
            None => png_rgb8_encoded(width, height, samples@) == None::<Seq<u8>>,
        },
{
    let mut out: Vec<u8> = Vec::new();
    let mut encoder = png::Encoder::new(&mut out, width, height);
    encoder.set_color(png::ColorType::Rgb);
    encoder.set_depth(png::BitDepth::Eight);
    let mut writer = encoder.write_header().ok()?;
    writer.write_image_data(samples).ok()?;
    writer.finish().ok()?;
    Some(out)
}

} // verus!
