//! Encoding an [`Image`] into a PNG byte stream.
use crate::bytes::{concat, extend_bytes, joined, lemma_concat_push, u32_be};
use crate::chunk::{tag_bytes, ChunkType};
use crate::clock::utc_now;
use crate::crc::{compute_crc, crc32};
use crate::decoding::{png_signature, zero_row};
use crate::filter::{bpp_of, filter_row_paeth, paeth_filtered};
use crate::helpers::ColorType;
use crate::image::{bytes_per_pixel, is_16_bit_spec, Image, ImageType};
use crate::pixels::{swap16, swapped_pairs};
use crate::zlib::{zlib_compress, zlib_compressed, zlib_decompressed};
use vstd::prelude::*;
use vstd::slice::{slice_subrange, slice_to_vec};

verus! {

///Compression level of the encoded image
#[derive(Default, Debug, Copy, Clone, PartialEq, Eq, Structural)]
pub enum CompressionLevel {
    ///No compression at all, fastest
    Uncompressed,
    ///Do some compression, but optimize for time
    #[default]
    Fast,
    ///Best compression, slowest encoding
    Best,
}

///Settings for png encoding
#[derive(Default, Debug, Clone, Copy, PartialEq, Eq, Structural)]
pub struct PngEncodingOptions {
    ///How much to compress  the image
    pub compression: CompressionLevel,
    ///Wether to write a time stamp to the image
    pub write_timestamp: bool,
}

///A moment as a tIME chunk records it
#[derive(Debug, Clone, Copy, PartialEq, Eq, Structural)]
pub struct PngTime {
    ///Year, e.g. 2024
    pub year: u16,
    ///Month, 1 to 12
    pub month: u8,
    ///Day of the month, 1 to 31
    pub day: u8,
    ///Hour, 0 to 23
    pub hour: u8,
    ///Minute, 0 to 59
    pub minute: u8,
    ///Second, 0 to 60
    pub second: u8,
}

/// Most payload bytes one IDAT chunk carries; longer compressed data is split.
pub const IDAT_MAX: usize = 0x4000_0000;

/// zlib compression level of each setting.
pub open spec fn zlib_level(c: CompressionLevel) -> u32 {
    match c {
        CompressionLevel::Uncompressed => 0,
        CompressionLevel::Fast => 1,
        CompressionLevel::Best => 9,
    }
}

/// Whether scanlines are Paeth-filtered (every setting but no compression).
pub open spec fn uses_filter(c: CompressionLevel) -> bool {
    !(c is Uncompressed)
}

/// Bit depth of a format.
pub open spec fn depth_of(t: ImageType) -> u8 {
    if is_16_bit_spec(t) {
        16
    } else {
        8
    }
}

/// PNG color type of a format.
pub open spec fn color_type_for(t: ImageType) -> ColorType {
    match t {
        ImageType::R8 | ImageType::R16 => ColorType::Greyscale,
        ImageType::Ra8 | ImageType::Ra16 => ColorType::GreyscaleAlpha,
        ImageType::Rgb8 | ImageType::Rgb16 => ColorType::Truecolor,
        ImageType::Rgba8 | ImageType::Rgba16 => ColorType::TruecolorAlpha,
    }
}

/// PNG color type code of a format.
pub open spec fn color_code_for(t: ImageType) -> u8 {
    match t {
        ImageType::R8 | ImageType::R16 => 0,
        ImageType::Ra8 | ImageType::Ra16 => 4,
        ImageType::Rgb8 | ImageType::Rgb16 => 2,
        ImageType::Rgba8 | ImageType::Rgba16 => 6,
    }
}

/// A whole chunk: length, tag, payload and the CRC of tag and payload.
#[verifier::opaque]
pub open spec fn chunk_bytes(t: ChunkType, p: Seq<u8>) -> Seq<u8> {
    u32_be(p.len() as u32) + tag_bytes(t) + p + u32_be(crc32(tag_bytes(t) + p))
}

/// The IHDR payload of an image.
pub open spec fn ihdr_payload(w: u32, h: u32, t: ImageType) -> Seq<u8> {
    u32_be(w) + u32_be(h) + seq![depth_of(t), color_code_for(t), 0u8, 0u8, 0u8]
}

/// The tIME payload of a moment.
pub open spec fn time_payload(t: PngTime) -> Seq<u8> {
    seq![(t.year >> 8u16) as u8, t.year as u8, t.month, t.day, t.hour, t.minute, t.second]
}

/// Scanline `y` of an image, its samples high byte first.
pub open spec fn stream_row(img: Image, y: int) -> Seq<u8> {
    let rb = img.width * bytes_per_pixel(img.img_type);
    let row = img.data@.subrange(y * rb, y * rb + rb);
    if is_16_bit_spec(img.img_type) {
        swap16(row)
    } else {
        row
    }
}

/// Scanline `y` as the encoder writes it: filter byte, then the bytes.
pub open spec fn scanline(img: Image, filter: bool, y: int) -> Seq<u8> {
    if filter {
        let prev = if y == 0 {
            zero_row((img.width * bytes_per_pixel(img.img_type)) as nat)
        } else {
            stream_row(img, y - 1)
        };
        seq![4u8] + paeth_filtered(stream_row(img, y), prev, bytes_per_pixel(img.img_type))
    } else {
        seq![0u8] + stream_row(img, y)
    }
}

/// The data that the encoder compresses: the first `n` scanlines.
pub open spec fn scanlines(img: Image, filter: bool, n: int) -> Seq<u8> {
    concat(Seq::new(n as nat, |y: int| scanline(img, filter, y)))
}

/// IDAT chunks carrying `c`, at most `IDAT_MAX` bytes each.
pub open spec fn idat_chunks(c: Seq<u8>) -> Seq<u8>
    decreases c.len(),
{
    if c.len() <= IDAT_MAX {
        chunk_bytes(ChunkType::IDAT, c)
    } else {
        chunk_bytes(ChunkType::IDAT, c.take(IDAT_MAX as int)) + idat_chunks(c.skip(IDAT_MAX as int))
    }
}

/// The tIME chunk for an optional moment (nothing when there is none).
pub open spec fn time_chunk(time: Option<PngTime>) -> Seq<u8> {
    match time {
        Some(t) => chunk_bytes(ChunkType::tIME, time_payload(t)),
        None => Seq::empty(),
    }
}

/// A PNG stream for an image whose compressed scanlines are `c`.
pub open spec fn framed(img: Image, time: Option<PngTime>, c: Seq<u8>) -> Seq<u8> {
    png_signature() + chunk_bytes(ChunkType::IHDR, ihdr_payload(img.width, img.height, img.img_type))
        + time_chunk(time) + idat_chunks(c) + chunk_bytes(ChunkType::IEND, Seq::empty())
}

/// The data that the encoder compresses for an image and settings.
pub open spec fn image_scanlines(img: Image, options: PngEncodingOptions) -> Seq<u8> {
    scanlines(img, uses_filter(options.compression), img.height as int)
}

/// The whole PNG stream for an image, with an optional tIME moment.
pub open spec fn encoded(img: Image, options: PngEncodingOptions, time: Option<PngTime>) -> Seq<u8> {
    framed(img, time, zlib_compressed(image_scanlines(img, options), zlib_level(options.compression)))
}

/// Appends a whole chunk with tag `t` and payload `payload`.
fn emit_chunk(out: &mut Vec<u8>, t: ChunkType, payload: &[u8])
    requires
        payload@.len() <= u32::MAX,
    ensures
        final(out)@ == old(out)@ + chunk_bytes(t, payload@),
{
    let tag = t.tag();
    let body = joined(tag.as_slice(), payload);
    let crc = compute_crc(body.as_slice());
    push_be_u32(out, payload.len() as u32);
    extend_bytes(out, body.as_slice());
    push_be_u32(out, crc);
    reveal(chunk_bytes);
    assert(final(out)@ =~= old(out)@ + chunk_bytes(t, payload@));
}

/// Appends the four big-endian bytes of `v`.
fn push_be_u32(out: &mut Vec<u8>, v: u32)
    ensures
        final(out)@ == old(out)@ + u32_be(v),
{
    out.push((v >> 24) as u8);
    out.push((v >> 16) as u8);
    out.push((v >> 8) as u8);
    out.push(v as u8);
    assert(final(out)@ =~= old(out)@ + u32_be(v));
}

/// Appends `c` as IDAT chunks of at most `IDAT_MAX` bytes.
fn emit_idat(out: &mut Vec<u8>, c: &[u8])
    ensures
        final(out)@ == old(out)@ + idat_chunks(c@),
    decreases c@.len(),
{
    if c.len() <= IDAT_MAX {
        emit_chunk(out, ChunkType::IDAT, c);
    } else {
        let head = slice_subrange(c, 0, IDAT_MAX);
        assert(head@ =~= c@.take(IDAT_MAX as int));
        emit_chunk(out, ChunkType::IDAT, head);
        let rest = slice_subrange(c, IDAT_MAX, c.len());
        assert(rest@ =~= c@.skip(IDAT_MAX as int));
        emit_idat(out, rest);
    }
}

impl ImageType {
    /// PNG color type of this format.
    pub fn color_type(&self) -> (r: ColorType)
        ensures
            r == color_type_for(*self),
    {
        match self {
            ImageType::R8 | ImageType::R16 => ColorType::Greyscale,
            ImageType::Ra8 | ImageType::Ra16 => ColorType::GreyscaleAlpha,
            ImageType::Rgb8 | ImageType::Rgb16 => ColorType::Truecolor,
            ImageType::Rgba8 | ImageType::Rgba16 => ColorType::TruecolorAlpha,
        }
    }
}

/// The byte distance to the previous pixel is one pixel.
pub proof fn lemma_format_bpp(t: ImageType)
    ensures
        bpp_of(color_type_for(t), depth_of(t)) == bytes_per_pixel(t),
{
}

///The scanlines of an image with their filter bytes, as the encoder compresses them
pub fn build_scanlines(image: &Image, filter: bool) -> (r: Vec<u8>)
    requires
        image.wf(),
    ensures
        r@ == scanlines(*image, filter, image.height as int),
{
    let t = image.img_type;
    let dlen = image.data.len();
    assert(image.width * bytes_per_pixel(t) <= dlen) by (nonlinear_arith)
        requires
            dlen == image.width * image.height * bytes_per_pixel(t),
            image.height >= 1,
    ;
    let rb = image.width as usize * t.bytes_per_pixel() as usize;
    let h = image.height as usize;
    let ct = t.color_type();
    let depth: u8 = if t.is_16_bit() { 16 } else { 8 };
    let is16 = t.is_16_bit();
    proof {
        lemma_format_bpp(t);
    }
    let mut out: Vec<u8> = Vec::new();
    let mut prev: Vec<u8> = vec![0u8; rb];
    let mut y: usize = 0;
    let mut start: usize = 0;
    while y < h
        invariant
            image.wf(),
            t == image.img_type,
            rb == image.width * bytes_per_pixel(t),
            h == image.height,
            ct == color_type_for(t),
            depth == depth_of(t),
            is16 == is_16_bit_spec(t),
            bpp_of(ct, depth) == bytes_per_pixel(t),
            0 <= y <= h,
            dlen == image.data@.len(),
            prev@.len() == rb,
            start == y * rb,
            prev@ == if y == 0 { zero_row(rb as nat) } else { stream_row(*image, y - 1) },
            out@ == scanlines(*image, filter, y as int),
        decreases h - y,
    {
        proof {
            assert(y * rb + rb <= h * rb) by (nonlinear_arith)
                requires
                    y + 1 <= h,
            ;
            assert(image.data@.len() == h * rb) by (nonlinear_arith)
                requires
                    image.data@.len() == image.width * image.height * bytes_per_pixel(t),
                    rb == image.width * bytes_per_pixel(t),
                    h == image.height,
            ;
        }
        let row = slice_subrange(image.data.as_slice(), start, start + rb);
        let cur = if is16 {
            proof {
                assert(rb % 2 == 0) by (nonlinear_arith)
                    requires
                        rb == image.width * bytes_per_pixel(t),
                        is_16_bit_spec(t),
                        bytes_per_pixel(t) % 2 == 0,
                ;
            }
            swapped_pairs(row)
        } else {
            slice_to_vec(row)
        };
        assert(cur@ == stream_row(*image, y as int));
        let ghost before = out@;
        if filter {
            out.push(4);
            if rb > 0 {
                let f = filter_row_paeth(cur.as_slice(), prev.as_slice(), ct, depth);
                extend_bytes(&mut out, f.as_slice());
            }
        } else {
            out.push(0);
            extend_bytes(&mut out, cur.as_slice());
        }
        proof {
            let g = |k: int| scanline(*image, filter, k);
            assert(out@ =~= before + scanline(*image, filter, y as int));
            assert(Seq::new((y + 1) as nat, g) =~= Seq::new(y as nat, g).push(g(y as int)));
            lemma_concat_push(Seq::new(y as nat, g), g(y as int));
            assert((y + 1) * rb == y * rb + rb) by (nonlinear_arith);
        }
        prev = cur;
        y = y + 1;
        start = start + rb;
    }
    out
}

///Encodes an image into a png byte stream, with the tIME chunk given (if any)
pub fn encode_png_with_time(image: &Image, options: &PngEncodingOptions, time: Option<PngTime>) -> (r: Vec<u8>)
    requires
        image.wf(),
    ensures
        r@ == encoded(*image, *options, time),
        zlib_decompressed(zlib_compressed(image_scanlines(*image, *options), zlib_level(options.compression)))
            == Some(image_scanlines(*image, *options)),
{
    let mut stream: Vec<u8> = vec![0x89, 0x50, 0x4E, 0x47, 0x0D, 0x0A, 0x1A, 0x0A];
    assert(stream@ =~= png_signature());
    let t = image.img_type;
    let mut ihdr: Vec<u8> = Vec::new();
    push_be_u32(&mut ihdr, image.width);
    push_be_u32(&mut ihdr, image.height);
    ihdr.push(if t.is_16_bit() { 16 } else { 8 });
    ihdr.push(
        match t {
            ImageType::R8 | ImageType::R16 => 0,
            ImageType::Ra8 | ImageType::Ra16 => 4,
            ImageType::Rgb8 | ImageType::Rgb16 => 2,
            ImageType::Rgba8 | ImageType::Rgba16 => 6,
        },
    );
    ihdr.push(0);
    ihdr.push(0);
    ihdr.push(0);
    assert(ihdr@ =~= ihdr_payload(image.width, image.height, t));
    emit_chunk(&mut stream, ChunkType::IHDR, ihdr.as_slice());
    let ghost after_header = stream@;
    assert(after_header == png_signature() + chunk_bytes(ChunkType::IHDR, ihdr_payload(image.width, image.height, t)));
    if let Some(tm) = time {
        let p: Vec<u8> = vec![(tm.year >> 8) as u8, tm.year as u8, tm.month, tm.day, tm.hour, tm.minute, tm.second];
        assert(p@ =~= time_payload(tm));
        emit_chunk(&mut stream, ChunkType::tIME, p.as_slice());
    } else {
        assert(stream@ =~= after_header + time_chunk(time));
    }
    assert(stream@ == after_header + time_chunk(time));
    let (filter, level): (bool, u32) = match options.compression {
        CompressionLevel::Uncompressed => (false, 0),
        CompressionLevel::Fast => (true, 1),
        CompressionLevel::Best => (true, 9),
    };
    let data = build_scanlines(image, filter);
    let compressed = zlib_compress(data.as_slice(), level);
    emit_idat(&mut stream, compressed.as_slice());
    let empty: Vec<u8> = Vec::new();
    emit_chunk(&mut stream, ChunkType::IEND, empty.as_slice());
    stream
}

///Encodes an image into a png byte stream; with `write_timestamp` the current
///UTC time goes into a tIME chunk
pub fn encode_png(image: &Image, options: &PngEncodingOptions) -> (r: Vec<u8>)
    requires
        image.wf(),
    ensures
        zlib_decompressed(zlib_compressed(image_scanlines(*image, *options), zlib_level(options.compression)))
            == Some(image_scanlines(*image, *options)),
        !options.write_timestamp ==> r@ == encoded(*image, *options, None),
        options.write_timestamp ==> exists|t: PngTime|
            {
                &&& 1 <= t.month <= 12
                &&& 1 <= t.day <= 31
                &&& t.hour <= 23
                &&& t.minute <= 59
                &&& t.second <= 59
                &&& r@ == encoded(*image, *options, Some(t))
            },
{
    if options.write_timestamp {
        let (year, month, day, hour, minute, second) = utc_now();
        let t = PngTime {
            year: year as u16,
            month: month as u8,
            day: day as u8,
            hour: hour as u8,
            minute: minute as u8,
            second: second as u8,
        };
        encode_png_with_time(image, options, Some(t))
    } else {
        encode_png_with_time(image, options, None)
    }
}

} // verus!
