use vstd::prelude::*;
use crate::error::CaptureError;

verus! {

/// Bytes in the fixed header that precedes a device-independent bitmap's pixels.
pub const HEADER_LEN: usize = 40;

/// Little-endian unsigned 16-bit value at `at`.
pub open spec fn le_u16(d: Seq<u8>, at: int) -> int {
    d[at] as int + 256 * d[at + 1] as int
}

/// Little-endian two's-complement 32-bit value at `at`.
pub open spec fn le_i32(d: Seq<u8>, at: int) -> int {
    let u = d[at] as int + 256 * d[at + 1] as int + 65536 * d[at + 2] as int + 16777216
        * d[at + 3] as int;
    if u >= 0x8000_0000 {
        u - 0x1_0000_0000
    } else {
        u
    }
}

/// The header fields the decoder reads: pixel width, signed pixel height
/// (negative for rows stored top-down) and bits per pixel.
#[derive(Debug, Clone, Copy)]
pub struct DibHeader {
    pub width: i32,
    pub height: i32,
    pub bit_count: u16,
}

/// The header that the first `HEADER_LEN` bytes of `d` describe.
pub open spec fn header_of(d: Seq<u8>) -> DibHeader {
    DibHeader {
        width: le_i32(d, 4) as i32,
        height: le_i32(d, 8) as i32,
        bit_count: le_u16(d, 14) as u16,
    }
}

pub open spec fn abs(x: int) -> int {
    if x < 0 {
        -x
    } else {
        x
    }
}

/// Bytes per stored row: the row's bits rounded up to a whole number of 32-bit words.
pub open spec fn row_stride(width: int, bit_count: int) -> int {
    (width * bit_count + 31) / 32 * 4
}

/// Bytes per stored pixel.
pub open spec fn pixel_size(h: DibHeader) -> int {
    h.bit_count as int / 8
}

/// A header the decoder accepts: positive width, nonzero height, 24 or 32 bits per pixel.
pub open spec fn supported(h: DibHeader) -> bool {
    h.width > 0 && h.height != 0 && (h.bit_count == 24 || h.bit_count == 32)
}

/// Bytes of pixel data that the header declares.
pub open spec fn pixel_data_len(h: DibHeader) -> int {
    row_stride(h.width as int, h.bit_count as int) * abs(h.height as int)
}

/// The stored row that becomes output row `y`: rows are stored bottom-up when
/// the height is positive and top-down when it is negative.
pub open spec fn source_row(h: DibHeader, y: int) -> int {
    if h.height > 0 {
        h.height - 1 - y
    } else {
        y
    }
}

/// One output pixel, red, green, blue, opaque alpha, from the stored
/// blue-green-red pixel at byte `at`.
pub open spec fn pixel_at(d: Seq<u8>, at: int) -> Seq<u8> {
    seq![d[at + 2], d[at + 1], d[at], 255u8]
}

/// The first `n` pixels of stored row `r`, converted.
pub open spec fn converted_row(d: Seq<u8>, h: DibHeader, r: int, n: nat) -> Seq<u8>
    decreases n,
{
    if n == 0 {
        Seq::empty()
    } else {
        converted_row(d, h, r, (n - 1) as nat) + pixel_at(
            d,
            HEADER_LEN + r * row_stride(h.width as int, h.bit_count as int) + (n - 1)
                * pixel_size(h),
        )
    }
}

/// Output row `y`, top to bottom.
pub open spec fn output_row(d: Seq<u8>, h: DibHeader, y: int) -> Seq<u8> {
    converted_row(d, h, source_row(h, y), h.width as nat)
}

/// The first `n` output rows, concatenated.
pub open spec fn output_rows(d: Seq<u8>, h: DibHeader, n: nat) -> Seq<u8>
    decreases n,
{
    if n == 0 {
        Seq::empty()
    } else {
        output_rows(d, h, (n - 1) as nat) + output_row(d, h, n - 1)
    }
}

/// An image as 8-bit RGBA rows, top row first.
pub struct DecodedImage {
    pub width: u32,
    pub height: u32,
    pub rgba: Vec<u8>,
}

/// Reads the header fields from the start of a bitmap.
pub fn parse_dib_header(d: &Vec<u8>) -> (r: Option<DibHeader>)
    ensures
        r is Some <==> d@.len() >= HEADER_LEN,
        r matches Some(h) ==> h == header_of(d@),
{
    if d.len() < HEADER_LEN {
        return None;
    }
    Some(DibHeader { width: read_i32(d, 4), height: read_i32(d, 8), bit_count: read_u16(d, 14) })
}

fn read_u16(d: &Vec<u8>, at: usize) -> (r: u16)
    requires
        at <= HEADER_LEN,
        at + 2 <= d@.len(),
    ensures
        r as int == le_u16(d@, at as int),
{
    let b0: u16 = d[at] as u16;
    let b1: u16 = d[at + 1] as u16;
    b0 + 256 * b1
}

fn read_i32(d: &Vec<u8>, at: usize) -> (r: i32)
    requires
        at <= HEADER_LEN,
        at + 4 <= d@.len(),
    ensures
        r as int == le_i32(d@, at as int),
{
    let b0: u64 = d[at] as u64;
    let b1: u64 = d[at + 1] as u64;
    let b2: u64 = d[at + 2] as u64;
    let b3: u64 = d[at + 3] as u64;
    let u: u64 = b0 + 256 * b1 + 65536 * b2 + 16777216 * b3;
    if u >= 0x8000_0000 {
        ((u - 0x8000_0000) as i32) - 0x7fff_ffff - 1
    } else {
        u as i32
    }
}

proof fn lemma_pixels_fit_row(width: int, bpp: int)
    requires
        width > 0,
        bpp == 3 || bpp == 4,
    ensures
        width * bpp <= row_stride(width, 8 * bpp),
{
    let n = width * bpp;
    assert(width * (8 * bpp) == 8 * n) by (nonlinear_arith)
        requires
            n == width * bpp,
    ;
    let q = (8 * n + 31) / 32;
    assert(32 * q >= 8 * n);
}

proof fn lemma_mul_step(a: int, b: int, c: int)
    requires
        0 <= a < b,
        c >= 0,
    ensures
        a * c + c <= b * c,
{
    assert((a + 1) * c <= b * c) by (nonlinear_arith)
        requires
            a + 1 <= b,
            c >= 0,
    ;
    assert((a + 1) * c == a * c + c) by (nonlinear_arith);
}

pub(crate) proof fn lemma_output_rows_len(d: Seq<u8>, h: DibHeader, n: nat)
    requires
        h.width >= 0,
    ensures
        output_rows(d, h, n).len() == n * (4 * h.width as int),
    decreases n,
{
    if n > 0 {
        lemma_output_rows_len(d, h, (n - 1) as nat);
        lemma_converted_row_len(d, h, source_row(h, n - 1), h.width as nat);
        assert(output_row(d, h, n - 1).len() == 4 * h.width as int);
        assert(output_rows(d, h, n).len() == output_rows(d, h, (n - 1) as nat).len() + 4
            * h.width as int);
        assert(n * (4 * h.width as int) == (n - 1) * (4 * h.width as int) + 4 * h.width as int)
            by (nonlinear_arith);
    } else {
        assert(output_rows(d, h, n).len() == 0);
    }
}

proof fn lemma_converted_row_len(d: Seq<u8>, h: DibHeader, r: int, n: nat)
    ensures
        converted_row(d, h, r, n).len() == 4 * n,
    decreases n,
{
    if n > 0 {
        lemma_converted_row_len(d, h, r, (n - 1) as nat);
    }
}

proof fn lemma_output_rows_prefix(d: Seq<u8>, h: DibHeader, n: nat)
    requires
        h.width >= 0,
        n >= 1,
    ensures
        output_rows(d, h, n).subrange(0, 4 * h.width as int) == output_row(d, h, 0),
    decreases n,
{
    lemma_converted_row_len(d, h, source_row(h, 0), h.width as nat);
    if n == 1 {
        assert(output_rows(d, h, 0) == Seq::<u8>::empty());
        assert(output_rows(d, h, 1) =~= output_row(d, h, 0));
    } else {
        lemma_output_rows_prefix(d, h, (n - 1) as nat);
        lemma_output_rows_len(d, h, (n - 1) as nat);
        let prev = output_rows(d, h, (n - 1) as nat);
        assert(prev.len() >= 4 * h.width as int) by (nonlinear_arith)
            requires
                prev.len() == (n - 1) * (4 * h.width as int),
                n >= 2,
                h.width >= 0,
        ;
        assert(output_rows(d, h, n).subrange(0, 4 * h.width as int) =~= prev.subrange(
            0,
            4 * h.width as int,
        ));
    }
}

/// Row order of a decoded bitmap: the first output row of a bitmap with
/// positive height (stored bottom-up) is its last stored row, and that of a
/// bitmap with negative height (stored top-down) is its first stored row.
pub proof fn lemma_first_output_row(d: Seq<u8>, h: DibHeader)
    requires
        supported(h),
    ensures
        h.height > 0 ==> output_rows(d, h, abs(h.height as int) as nat).subrange(
            0,
            4 * h.width as int,
        ) == converted_row(d, h, h.height - 1, h.width as nat),
        h.height < 0 ==> output_rows(d, h, abs(h.height as int) as nat).subrange(
            0,
            4 * h.width as int,
        ) == converted_row(d, h, 0, h.width as nat),
{
    lemma_output_rows_prefix(d, h, abs(h.height as int) as nat);
}

/// Decodes a device-independent bitmap (header followed by pixel rows) into
/// top-down 8-bit RGBA.
///
/// Fails with `ClipboardAccess` when the data is shorter than the header,
/// `FormatUnavailable` when the header is not a supported raster, and
/// `Encode` when the pixel data is shorter than the header declares or the
/// output would not fit in memory.
pub fn decode_dib(d: &Vec<u8>) -> (r: Result<DecodedImage, CaptureError>)
    ensures
        d@.len() < HEADER_LEN ==> r == Err::<DecodedImage, CaptureError>(
            CaptureError::ClipboardAccess,
        ),
        d@.len() >= HEADER_LEN && !supported(header_of(d@)) ==> r == Err::<
            DecodedImage,
            CaptureError,
        >(CaptureError::FormatUnavailable),
        d@.len() >= HEADER_LEN && supported(header_of(d@)) ==> {
            let h = header_of(d@);
            let fits = pixel_data_len(h) <= d@.len() - HEADER_LEN && 4 * h.width * abs(
                h.height as int,
            ) <= usize::MAX;
            &&& fits ==> (r matches Ok(img) && img.width == h.width && img.height == abs(
                h.height as int,
            ) && img.rgba@ == output_rows(d@, h, abs(h.height as int) as nat))
            &&& !fits ==> r == Err::<DecodedImage, CaptureError>(CaptureError::Encode)
        },
{
    let hdr = match parse_dib_header(d) {
        Some(h) => h,
        None => return Err(CaptureError::ClipboardAccess),
    };
    if !(hdr.width > 0 && hdr.height != 0 && (hdr.bit_count == 24 || hdr.bit_count == 32)) {
        return Err(CaptureError::FormatUnavailable);
    }
    let ghost h = hdr;
    let w64: u64 = hdr.width as u64;
    let hh64: u64 = if hdr.height < 0 {
        (0 - (hdr.height as i64)) as u64
    } else {
        hdr.height as u64
    };
    let bits: u64 = hdr.bit_count as u64;
    assert(w64 * bits <= 0x7fff_ffff * 32) by (nonlinear_arith)
        requires
            w64 <= 0x7fff_ffff,
            bits <= 32,
    ;
    let stride64: u64 = (w64 * bits + 31) / 32 * 4;
    assert(stride64 == row_stride(h.width as int, h.bit_count as int));
    assert(hh64 == abs(h.height as int));
    let len = d.len();
    let avail: usize = len - HEADER_LEN;
    let total64 = match stride64.checked_mul(hh64) {
        Some(t) => t,
        None => {
            assert(d@.len() <= usize::MAX <= u64::MAX);
            return Err(CaptureError::Encode);
        },
    };
    if total64 > avail as u64 {
        return Err(CaptureError::Encode);
    }
    assert(4 * w64 * hh64 <= 4 * 0x7fff_ffff * 0x8000_0000) by (nonlinear_arith)
        requires
            w64 <= 0x7fff_ffff,
            hh64 <= 0x8000_0000,
    ;
    let out_len64: u64 = 4 * w64 * hh64;
    if out_len64 > usize::MAX as u64 {
        return Err(CaptureError::Encode);
    }
    assert(stride64 <= total64) by (nonlinear_arith)
        requires
            total64 == stride64 * hh64,
            hh64 >= 1,
    ;
    let w: usize = w64 as usize;
    let hh: usize = hh64 as usize;
    let stride: usize = stride64 as usize;
    let bpp: usize = (bits / 8) as usize;
    proof {
        assert(stride == row_stride(h.width as int, h.bit_count as int));
        assert(pixel_size(h) == bpp);
        lemma_pixels_fit_row(w as int, bpp as int);
        assert(8 * bpp == bits);
    }
    assert(hh * stride == total64) by (nonlinear_arith)
        requires
            total64 == stride64 * hh64,
            hh == hh64,
            stride == stride64,
    ;
    let mut out: Vec<u8> = Vec::new();
    let mut y: usize = 0;
    while y < hh
        invariant
            0 <= y <= hh,
            hh == abs(h.height as int),
            w == h.width,
            stride == row_stride(h.width as int, h.bit_count as int),
            bpp == pixel_size(h),
            bpp == 3 || bpp == 4,
            w * bpp <= stride,
            hh * stride <= d@.len() - HEADER_LEN,
            d@.len() == len,
            h == hdr,
            out@ == output_rows(d@, h, y as nat),
        decreases hh - y,
    {
        let r: usize = if hdr.height > 0 {
            hh - 1 - y
        } else {
            y
        };
        proof {
            lemma_mul_step(r as int, hh as int, stride as int);
        }
        let base: usize = HEADER_LEN + r * stride;
        let ghost row_start = out@;
        let mut x: usize = 0;
        while x < w
            invariant
                0 <= x <= w,
                0 <= r < hh,
                r == source_row(h, y as int),
                hh == abs(h.height as int),
                w == h.width,
                stride == row_stride(h.width as int, h.bit_count as int),
                bpp == pixel_size(h),
                bpp == 3 || bpp == 4,
                w * bpp <= stride,
                base == HEADER_LEN + r * stride,
                base + stride <= d@.len(),
                d@.len() == len,
                h == hdr,
                row_start == output_rows(d@, h, y as nat),
                out@ == row_start + converted_row(d@, h, r as int, x as nat),
            decreases w - x,
        {
            proof {
                lemma_mul_step(x as int, w as int, bpp as int);
            }
            let p: usize = base + x * bpp;
            let ghost before = out@;
            out.push(d[p + 2]);
            out.push(d[p + 1]);
            out.push(d[p]);
            out.push(255u8);
            proof {
                assert(out@ =~= before + pixel_at(d@, p as int));
                assert(converted_row(d@, h, r as int, (x + 1) as nat) == converted_row(
                    d@,
                    h,
                    r as int,
                    x as nat,
                ) + pixel_at(d@, p as int));
                assert(out@ =~= row_start + converted_row(d@, h, r as int, (x + 1) as nat));
            }
            x += 1;
        }
        proof {
            assert(output_rows(d@, h, (y + 1) as nat) == output_rows(d@, h, y as nat) + output_row(
                d@,
                h,
                y as int,
            ));
        }
        y += 1;
    }
    Ok(DecodedImage { width: hdr.width as u32, height: hh as u32, rgba: out })
}

} // verus!
