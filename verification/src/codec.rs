//! Byte codecs the library delegates to outside crates: Base64, WOFF
//! unpacking, un-premultiplying a colour and the PNG and JPEG encoders, plus
//! URL percent-decoding.

use vstd::prelude::*;

verus! {

/// The character of the standard Base64 alphabet (RFC 4648, table 1) for a
/// six-bit value.
pub open spec fn base64_digit(v: int) -> char {
    if v < 26 {
        (65 + v) as char
    } else if v < 52 {
        (97 + v - 26) as char
    } else if v < 62 {
        (48 + v - 52) as char
    } else if v == 62 {
        '+'
    } else {
        '/'
    }
}

/// The standard (RFC 4648, padded) Base64 text of some bytes: every three
/// bytes become four characters, and a last group of one or two bytes is
/// padded with `=` to four.
pub open spec fn base64_standard_encode(b: Seq<u8>) -> Seq<char>
    decreases b.len(),
{
    let x = if b.len() > 0 { b[0] as int } else { 0 };
    let y = if b.len() > 1 { b[1] as int } else { 0 };
    let z = if b.len() > 2 { b[2] as int } else { 0 };
    if b.len() == 0 {
        Seq::empty()
    } else if b.len() == 1 {
        seq![base64_digit(x / 4), base64_digit((x % 4) * 16), '=', '=']
    } else if b.len() == 2 {
        seq![base64_digit(x / 4), base64_digit((x % 4) * 16 + y / 16), base64_digit((y % 16) * 4), '=']
    } else {
        seq![
            base64_digit(x / 4),
            base64_digit((x % 4) * 16 + y / 16),
            base64_digit((y % 16) * 4 + z / 64),
            base64_digit(z % 64),
        ] + base64_standard_encode(b.skip(3))
    }
}

/// Text made of ASCII characters, as the bytes it is stored in.
pub open spec fn ascii_bytes(s: Seq<char>) -> Seq<u8> {
    s.map_values(|c: char| c as u8)
}

/// What `base64::engine::general_purpose::STANDARD` decodes from some bytes
/// of text: `None` when the text is not valid padded Base64.
pub uninterp spec fn base64_standard_decode(text: Seq<u8>) -> Option<Seq<u8>>;

/// `base64::Engine::encode` on the standard engine: the RFC 4648 text of
/// the input, which the same engine decodes back to the input. The crate
/// panics only when the encoded length overflows `usize`, which no slice can
/// reach: a slice holds at most `isize::MAX` bytes, whose encoding is about
/// two thirds of `usize::MAX`.
#[verifier::external_body]
pub(crate) fn base64_encode(bytes: &[u8]) -> (text: String)
    ensures
        text@ == base64_standard_encode(bytes@),
        base64_standard_decode(ascii_bytes(text@)) == Some(bytes@),
{
    base64::Engine::encode(&base64::engine::general_purpose::STANDARD, bytes)
}

/// `base64::Engine::decode` on the standard engine, with the error dropped.
/// That engine requires canonical padding and rejects trailing bits, so it
/// accepts exactly the texts `base64_standard_encode` writes: the bytes it
/// decodes encode back to the text, and a text that no bytes encode to is
/// refused.
#[verifier::external_body]
pub(crate) fn base64_decode(text: &[u8]) -> (bytes: Option<Vec<u8>>)
    ensures
        match bytes {
            Some(b) => base64_standard_decode(text@) == Some(b@) && ascii_bytes(
                base64_standard_encode(b@),
            ) == text@,
            None => base64_standard_decode(text@) is None && forall|b: Seq<u8>|
                #[trigger] ascii_bytes(base64_standard_encode(b)) != text@,
        },
{
    base64::Engine::decode(&base64::engine::general_purpose::STANDARD, text).ok()
}

/// The value of an ASCII hexadecimal digit, as `char::to_digit(16)` reads a
/// byte.
pub open spec fn hex_value(b: u8) -> Option<u8> {
    if 48 <= b && b <= 57 {
        Some((b - 48) as u8)
    } else if 97 <= b && b <= 102 {
        Some((b - 87) as u8)
    } else if 65 <= b && b <= 70 {
        Some((b - 55) as u8)
    } else {
        None
    }
}

/// URL percent-decoding: every `%` followed by two hexadecimal digits
/// becomes the byte they spell; every other byte stays as it is.
pub open spec fn percent_decoded(s: Seq<u8>) -> Seq<u8>
    decreases s.len(),
{
    if s.len() == 0 {
        Seq::empty()
    } else if s[0] == 37u8 && s.len() >= 3 && hex_value(s[1]) is Some && hex_value(s[2]) is Some {
        seq![(hex_value(s[1])->0 * 16 + hex_value(s[2])->0) as u8] + percent_decoded(s.skip(3))
    } else {
        seq![s[0]] + percent_decoded(s.skip(1))
    }
}

/// `percent_encoding::percent_decode_str`, collected into bytes. The crate
/// documents exactly the rule `percent_decoded` states.
#[verifier::external_body]
pub(crate) fn percent_decode(text: &str) -> (bytes: Vec<u8>)
    ensures
        bytes@ == percent_decoded(vstd::utf8::encode_utf8(text@)),
{
    percent_encoding::percent_decode_str(text).collect::<Vec<u8>>()
}

/// The sfnt font `wuff::decompress_woff1` unpacks from a WOFF file, or `None`
/// when it refuses the input.
pub uninterp spec fn woff1_unpacked(bytes: Seq<u8>) -> Option<Seq<u8>>;

/// The sfnt font `wuff::decompress_woff2` unpacks from a WOFF2 file, or
/// `None` when it refuses the input.
pub uninterp spec fn woff2_unpacked(bytes: Seq<u8>) -> Option<Seq<u8>>;

/// `wuff::decompress_woff1`, with the error dropped; the result is named only.
#[verifier::external_body]
pub(crate) fn woff1_decompress(bytes: &[u8]) -> (out: Option<Vec<u8>>)
    ensures
        match out {
            Some(v) => woff1_unpacked(bytes@) == Some(v@),
            None => woff1_unpacked(bytes@) is None,
        },
{
    wuff::decompress_woff1(bytes).ok()
}

/// `wuff::decompress_woff2`, with the error dropped; the result is named only.
/// The crate rejects malformed input with an error: its `bail` checks
/// return `Err` unless its `debug` feature, not enabled here, turns them into
/// panics, and each `expect`, `unwrap` and `unreachable!` on the decoding
/// path follows a check that rules it out.
#[verifier::external_body]
pub(crate) fn woff2_decompress(bytes: &[u8]) -> (out: Option<Vec<u8>>)
    ensures
        match out {
            Some(v) => woff2_unpacked(bytes@) == Some(v@),
            None => woff2_unpacked(bytes@) is None,
        },
{
    wuff::decompress_woff2(bytes).ok()
}

/// The straight-alpha red, green and blue that
/// `tiny_skia::PremultipliedColorU8::demultiply` gives back for a
/// premultiplied pixel.
pub uninterp spec fn demultiplied(r: u8, g: u8, b: u8, a: u8) -> (u8, u8, u8);

/// `tiny_skia::PremultipliedColorU8::demultiply` on a valid premultiplied
/// pixel (no colour component above the alpha, which is exactly when
/// `PremultipliedColorU8::from_rgba` accepts it). The crate's source returns
/// an opaque pixel unchanged; the other cases are named only.
#[verifier::external_body]
pub(crate) fn demultiply(r: u8, g: u8, b: u8, a: u8) -> (out: (u8, u8, u8))
    requires
        r <= a,
        g <= a,
        b <= a,
    ensures
        out == demultiplied(r, g, b, a),
        a == 255 ==> out == (r, g, b),
{
    match tiny_skia::PremultipliedColorU8::from_rgba(r, g, b, a) {
        Some(c) => {
            let d = c.demultiply();
            (d.red(), d.green(), d.blue())
        },
        None => (r, g, b),
    }
}

/// The PNG file that the `png` crate writes for straight RGBA8 pixels of the
/// given size (eight bits per channel, default compression and filter), or
/// `None` where the encoder refuses them.
pub uninterp spec fn png_rgba8(pixels: Seq<u8>, width: u32, height: u32) -> Option<Seq<u8>>;

/// `png::Encoder` set to RGBA, eight bits deep, then `write_header`,
/// `write_image_data` and `finish`, with the error dropped. The output is
/// named only; the crate's source refuses a zero width or height in
/// `write_header`. `capacity` only sizes the output buffer up front.
#[verifier::external_body]
pub(crate) fn png_encode_rgba8(pixels: &[u8], width: u32, height: u32, capacity: usize) -> (out:
    Option<Vec<u8>>)
    requires
        pixels@.len() == 4 * width * height,
    ensures
        match out {
            Some(v) => png_rgba8(pixels@, width, height) == Some(v@),
            None => png_rgba8(pixels@, width, height) is None,
        },
        width == 0 || height == 0 ==> out is None,
{
    let mut out = Vec::with_capacity(capacity);
    let mut encoder = png::Encoder::new(&mut out, width, height);
    encoder.set_color(png::ColorType::Rgba);
    encoder.set_depth(png::BitDepth::Eight);
    let mut writer = encoder.write_header().ok()?;
    writer.write_image_data(pixels).ok()?;
    writer.finish().ok()?;
    Some(out)
}

/// The baseline JPEG file that `image`'s `JpegEncoder` writes for RGB8 pixels
/// of the given size at the given quality, or `None` where it refuses them.
pub uninterp spec fn jpeg_rgb8(pixels: Seq<u8>, width: u32, height: u32, quality: u8) -> Option<
    Seq<u8>,
>;

/// `image::codecs::jpeg::JpegEncoder::new_with_quality` then `encode` as
/// `Rgb8`, with the error dropped. The output is named only; the crate's
/// source refuses a side of zero or above 65535 (`EncoderError::InvalidSize`)
/// and panics on a buffer of another length than three bytes a pixel, which
/// `requires` rules out.
#[verifier::external_body]
pub(crate) fn jpeg_encode_rgb8(pixels: &[u8], width: u32, height: u32, quality: u8) -> (out: Option<
    Vec<u8>,
>)
    requires
        pixels@.len() == 3 * width * height,
    ensures
        match out {
            Some(v) => jpeg_rgb8(pixels@, width, height, quality) == Some(v@),
            None => jpeg_rgb8(pixels@, width, height, quality) is None,
        },
        width == 0 || height == 0 || width > 65535 || height > 65535 ==> out is None,
{
    let mut out = Vec::new();
    image::codecs::jpeg::JpegEncoder::new_with_quality(&mut std::io::Cursor::new(&mut out), quality)
        .encode(pixels, width, height, image::ExtendedColorType::Rgb8)
        .ok()?;
    Some(out)
}

} // verus!
