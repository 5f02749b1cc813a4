use vstd::prelude::*;
use vstd::string::*;
use crate::bitmap::{decode_dib, lemma_output_rows_len, output_rows, header_of, abs, supported, pixel_data_len, HEADER_LEN};
use crate::error::CaptureError;
use crate::util::{decimal, decimal_digits};

verus! {

/// The bytes of a PNG file holding an 8-bit RGBA image of the given size.
pub uninterp spec fn png_rgba_of(width: u32, height: u32, rgba: Seq<u8>) -> Seq<u8>;

/// The text that lossy UTF-16 decoding makes of `units`.
pub uninterp spec fn utf16_lossy_of(units: Seq<u16>) -> Seq<char>;

/// The text that lossy UTF-8 decoding makes of `bytes`.
pub uninterp spec fn utf8_lossy_of(bytes: Seq<u8>) -> Seq<char>;

/// png's `EncodingError`, the failure of its encoder, carried as an opaque value.
#[verifier::external_type_specification]
#[verifier::external_body]
pub struct ExEncodingError(png::EncodingError);

/// Relies on png's `Encoder` writing to memory (8-bit RGBA, the crate's default
/// compression and filtering): the file's bytes depend on the size and the
/// pixel bytes alone. `write_header` fails only on a zero width or height,
/// `write_image_data` only on a buffer whose length is not four bytes per
/// pixel, and writing into a `Vec` never fails. The buffer size is bounded
/// because `write_image_data` multiplies row length by height unchecked.
#[verifier::external_body]
fn encode_png(width: u32, height: u32, rgba: &Vec<u8>) -> (r: Result<Vec<u8>, png::EncodingError>)
    requires
        4 * width * height <= usize::MAX,
    ensures
        r matches Ok(b) ==> b@ == png_rgba_of(width, height, rgba@),
        width > 0 && height > 0 && rgba@.len() == 4 * width * height ==> r is Ok,
{
    let mut out: Vec<u8> = Vec::new();
    let mut encoder = png::Encoder::new(&mut out, width, height);
    encoder.set_color(png::ColorType::Rgba);
    encoder.set_depth(png::BitDepth::Eight);
    let mut writer = encoder.write_header()?;
    writer.write_image_data(rgba)?;
    writer.finish()?;
    Ok(out)
}

/// Relies on `String::from_utf16_lossy`: each unpaired surrogate becomes U+FFFD.
#[verifier::external_body]
fn utf16_lossy(units: &Vec<u16>) -> (r: String)
    ensures
        r@ == utf16_lossy_of(units@),
        units@.len() == 0 ==> r@.len() == 0,
{
    String::from_utf16_lossy(units)
}

/// Relies on `String::from_utf8_lossy`: each invalid sequence becomes U+FFFD.
#[verifier::external_body]
fn utf8_lossy(bytes: &Vec<u8>) -> (r: String)
    ensures
        r@ == utf8_lossy_of(bytes@),
        bytes@.len() == 0 ==> r@.len() == 0,
{
    String::from_utf8_lossy(bytes).into_owned()
}

/// Subdirectory of the application data directory that holds captured images.
pub const IMAGE_DIR_NAME: &'static str = "clipboard_images";

/// The file name of an image captured at `ts`: `clipboard_<ts>.png`.
pub open spec fn image_file_name_of(ts: u64) -> Seq<char> {
    "clipboard_"@ + decimal_digits(ts as nat) + ".png"@
}

/// The file name under which an image captured at `ts` is saved.
pub fn image_file_name(ts: u64) -> (r: String)
    ensures
        r@ == image_file_name_of(ts),
{
    let digits = decimal(ts);
    let name = String::from_str("clipboard_").concat(digits.as_str()).concat(".png");
    proof {
        reveal_strlit("clipboard_");
        reveal_strlit(".png");
    }
    name
}

/// Decodes the clipboard's device-independent bitmap and encodes it as a PNG file.
///
/// Decoding failures pass through unchanged; a bitmap that decodes is always encoded.
pub fn encode_clipboard_dib(d: &Vec<u8>) -> (r: Result<Vec<u8>, CaptureError>)
    ensures
        d@.len() < HEADER_LEN ==> r == Err::<Vec<u8>, CaptureError>(CaptureError::ClipboardAccess),
        d@.len() >= HEADER_LEN && !supported(header_of(d@)) ==> r == Err::<Vec<u8>, CaptureError>(
            CaptureError::FormatUnavailable,
        ),
        d@.len() >= HEADER_LEN && supported(header_of(d@)) ==> {
            let h = header_of(d@);
            let hh = abs(h.height as int);
            let fits = pixel_data_len(h) <= d@.len() - HEADER_LEN && 4 * h.width * hh
                <= usize::MAX;
            &&& !fits ==> r == Err::<Vec<u8>, CaptureError>(CaptureError::Encode)
            &&& fits ==> (r matches Ok(b) && b@ == png_rgba_of(
                h.width as u32,
                hh as u32,
                output_rows(d@, h, hh as nat),
            ))
        },
{
    let img = match decode_dib(d) {
        Ok(img) => img,
        Err(e) => return Err(e),
    };
    let ghost h = header_of(d@);
    proof {
        lemma_output_rows_len(d@, h, img.height as nat);
        assert(img.height as int * (4 * img.width as int) == 4 * img.width as int
            * img.height as int) by (nonlinear_arith);
    }
    match encode_png(img.width, img.height, &img.rgba) {
        Ok(b) => Ok(b),
        Err(_) => Err(CaptureError::Encode),
    }
}

/// Where the text ends in a NUL-terminated buffer: before the first zero, or
/// at the end of the buffer if it holds none.
pub open spec fn text_end<T>(s: Seq<T>, zero: T, n: int) -> bool {
    &&& 0 <= n <= s.len()
    &&& forall|i: int| 0 <= i < n ==> s[i] != zero
    &&& n == s.len() || s[n] == zero
}

/// Decodes NUL-terminated UTF-16 clipboard text, reading no further than the buffer.
pub fn wide_text(units: &Vec<u16>) -> (r: String)
    ensures
        exists|n: int| text_end(units@, 0u16, n) && r@ == utf16_lossy_of(units@.take(n)),
{
    let mut text: Vec<u16> = Vec::new();
    let mut i: usize = 0;
    while i < units.len() && units[i] != 0
        invariant
            0 <= i <= units@.len(),
            forall|j: int| 0 <= j < i ==> units@[j] != 0u16,
            text@ == units@.take(i as int),
        decreases units@.len() - i,
    {
        text.push(units[i]);
        assert(text@ =~= units@.take(i + 1));
        i += 1;
    }
    let r = utf16_lossy(&text);
    assert(text_end(units@, 0u16, i as int));
    r
}

/// Decodes NUL-terminated single-byte clipboard text, reading no further than the buffer.
pub fn ansi_text(bytes: &Vec<u8>) -> (r: String)
    ensures
        exists|n: int| text_end(bytes@, 0u8, n) && r@ == utf8_lossy_of(bytes@.take(n)),
{
    let mut text: Vec<u8> = Vec::new();
    let mut i: usize = 0;
    while i < bytes.len() && bytes[i] != 0
        invariant
            0 <= i <= bytes@.len(),
            forall|j: int| 0 <= j < i ==> bytes@[j] != 0u8,
            text@ == bytes@.take(i as int),
        decreases bytes@.len() - i,
    {
        text.push(bytes[i]);
        assert(text@ =~= bytes@.take(i + 1));
        i += 1;
    }
    let r = utf8_lossy(&text);
    assert(text_end(bytes@, 0u8, i as int));
    r
}

} // verus!
