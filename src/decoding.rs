//! Decoding a PNG byte stream into an [`Image`].
use crate::bytes::{be_u32, concat, extend_bytes, lemma_concat_len, lemma_concat_push};
use crate::chunk::{chunk_at, parse_chunk, read_n_const, truncated, ChunkType};
use crate::filter::{bpp_of, recon_row, unfilter_row};
use crate::helpers::{
    color_type_of, is_color_type_code, to_color_type, valid_bit_depth, validate_bit_depth,
    ColorType, Pallete,
};
use crate::image::{bytes_per_pixel, Image, ImageType};
use crate::pixels::{
    convert_row, lemma_row_out_len, lemma_trns_spec_fits, out_type, row_bytes, row_in_palette,
    row_out, transparency, trns_spec, TransparencyData,
};
use crate::zlib::{zlib_decompress, zlib_decompressed};
use vstd::prelude::*;
use vstd::slice::slice_subrange;

verus! {

///Errors that can occur while loading an image
#[derive(Clone, Copy, Debug, PartialEq, Eq)]
pub enum Error {
    ///File has invalid signature
    InvalidSignature,
    ///A chunk in a file has invalid header
    InvalidChunkType,
    ///CRC of a chunk is incorrect
    InvalidCrc,
    ///Other issue
    InvalidPngData(&'static str),
}

/// The eight bytes every PNG stream starts with.
pub open spec fn png_signature() -> Seq<u8> {
    seq![0x89u8, 0x50, 0x4E, 0x47, 0x0D, 0x0A, 0x1A, 0x0A]
}

///The fields of an image header that decoding uses
#[derive(Clone, Copy, Debug, PartialEq, Eq, Structural)]
pub struct Header {
    ///Width in pixels
    pub width: u32,
    ///Height in pixels
    pub height: u32,
    ///Bits per sample (or per palette index)
    pub bit_depth: u8,
    ///Color type
    pub color_type: ColorType,
}

/// The header that the payload of an IHDR chunk describes, or why it is refused.
#[verifier::opaque]
pub open spec fn header_of(p: Seq<u8>) -> Result<Header, Error> {
    if p.len() != 13 {
        Err(Error::InvalidPngData("Invalid header length"))
    } else if p[12] != 0 {
        Err(Error::InvalidPngData("Interlacing is not supported"))
    } else if p[11] != 0 {
        Err(Error::InvalidPngData("Invalid filter method"))
    } else if !is_color_type_code(p[9]) {
        Err(Error::InvalidPngData("Invalid color type"))
    } else if !valid_bit_depth(color_type_of(p[9]), p[8]) {
        Err(Error::InvalidPngData("Invalid bit depth for color type"))
    } else if p[10] != 0 {
        Err(Error::InvalidPngData("Invalid compression method"))
    } else if be_u32(p.subrange(0, 4)) == 0 || be_u32(p.subrange(4, 8)) == 0 {
        Err(Error::InvalidPngData("Image has no pixels"))
    } else {
        Ok(
            Header {
                width: be_u32(p.subrange(0, 4)),
                height: be_u32(p.subrange(4, 8)),
                bit_depth: p[8],
                color_type: color_type_of(p[9]),
            },
        )
    }
}

///Reads the fields of an IHDR payload and checks them
pub fn parse_header(p: &[u8]) -> (r: Result<Header, Error>)
    ensures
        r == header_of(p@),
{
    reveal(header_of);
    if p.len() != 13 {
        return Err(Error::InvalidPngData("Invalid header length"));
    }
    let mut pos: usize = 0;
    let w = read_n_const::<4>(p, &mut pos).unwrap();
    let h = read_n_const::<4>(p, &mut pos).unwrap();
    let width = ((w[0] as u32) << 24) | ((w[1] as u32) << 16) | ((w[2] as u32) << 8) | (w[3] as u32);
    let height = ((h[0] as u32) << 24) | ((h[1] as u32) << 16) | ((h[2] as u32) << 8) | (h[3] as u32);
    let bit_depth = p[8];
    let color_code = p[9];
    let compression_method = p[10];
    let filter_method = p[11];
    let interlace_method = p[12];
    if interlace_method != 0 {
        return Err(Error::InvalidPngData("Interlacing is not supported"));
    }
    if filter_method != 0 {
        return Err(Error::InvalidPngData("Invalid filter method"));
    }
    if !(color_code == 0 || color_code == 2 || color_code == 3 || color_code == 4 || color_code == 6) {
        return Err(Error::InvalidPngData("Invalid color type"));
    }
    let color_type = to_color_type(color_code);
    if !validate_bit_depth(color_type, bit_depth) {
        return Err(Error::InvalidPngData("Invalid bit depth for color type"));
    }
    if compression_method != 0 {
        return Err(Error::InvalidPngData("Invalid compression method"));
    }
    if width == 0 || height == 0 {
        return Err(Error::InvalidPngData("Image has no pixels"));
    }
    Ok(Header { width, height, bit_depth, color_type })
}

/// What the chunks before IEND contribute: the last palette, the last tRNS
/// payload and the concatenated IDAT payloads.
pub struct Collected {
    ///Payload of the last PLTE chunk, empty if there was none
    pub palette: Vec<u8>,
    ///Payload of the last tRNS chunk
    pub trns: Option<Vec<u8>>,
    ///IDAT payloads, one after another
    pub idat: Vec<u8>,
}

/// Why a tRNS payload is refused under color type `ct`, if it is.
pub open spec fn trns_error(ct: ColorType, p: Seq<u8>) -> Option<Error> {
    match ct {
        ColorType::Greyscale => if p.len() < 2 { Some(truncated()) } else { None },
        ColorType::Truecolor => if p.len() < 6 { Some(truncated()) } else { None },
        ColorType::IndexedColor => None,
        _ => Some(Error::InvalidPngData("Image can not contain tRNS chunk")),
    }
}

#[verifier::opaque]
/// The chunks from `pos` up to IEND, folded into the palette, tRNS payload and
/// IDAT data collected so far. `seen` tells whether an IDAT chunk came already:
/// after one, every chunk but IDAT and IEND is refused.
pub open spec fn scan_chunks(
    s: Seq<u8>,
    pos: int,
    ct: ColorType,
    palette: Seq<u8>,
    trns: Option<Seq<u8>>,
    idat: Seq<u8>,
    seen: bool,
) -> Result<(Seq<u8>, Option<Seq<u8>>, Seq<u8>), Error>
    decreases s.len() - pos,
{
    match chunk_at(s, pos) {
        Err(e) => Err(e),
        Ok((t, p, next)) => {
            if t is IEND {
                Ok((palette, trns, idat))
            } else if seen && !(t is IDAT) {
                Err(Error::InvalidPngData("IDAT chunks must be consecutive"))
            } else if t is IDAT {
                scan_chunks(s, next, ct, palette, trns, idat + p, true)
            } else if t is PLTE {
                scan_chunks(s, next, ct, p, trns, idat, seen)
            } else if t is tRNS {
                match trns_error(ct, p) {
                    Some(e) => Err(e),
                    None => scan_chunks(s, next, ct, palette, Some(p), idat, seen),
                }
            } else {
                scan_chunks(s, next, ct, palette, trns, idat, seen)
            }
        },
    }
}

/// The stream up to its first chunk: the signature and the IHDR chunk, read as a header.
pub open spec fn stream_header(s: Seq<u8>) -> Result<(Header, int), Error> {
    if s.len() < 8 || s.take(8) != png_signature() {
        Err(Error::InvalidSignature)
    } else {
        match chunk_at(s, 8) {
            Err(e) => Err(e),
            Ok((t, p, next)) => if !(t is IHDR) {
                Err(Error::InvalidPngData("Invalid png file, IHDR must be the first chunk"))
            } else {
                match header_of(p) {
                    Err(e) => Err(e),
                    Ok(h) => Ok((h, next)),
                }
            },
        }
    }
}

///Checks the signature and reads the IHDR chunk; returns the header and the position after it
pub fn read_header(s: &[u8]) -> (r: Result<(Header, usize), Error>)
    ensures
        match stream_header(s@) {
            Ok((h, next)) => r is Ok && r->Ok_0.0 == h && r->Ok_0.1 as int == next,
            Err(e) => r == Err::<(Header, usize), Error>(e),
        },
{
    let mut pos: usize = 0;
    match read_n_const::<8>(s, &mut pos) {
        None => {
            return Err(Error::InvalidSignature);
        },
        Some(sig) => {
            if !(sig[0] == 0x89 && sig[1] == 0x50 && sig[2] == 0x4E && sig[3] == 0x47 && sig[4]
                == 0x0D && sig[5] == 0x0A && sig[6] == 0x1A && sig[7] == 0x0A) {
                assert(s@.take(8) != png_signature()) by {
                    if s@.take(8) == png_signature() {
                        assert(sig@ == s@.take(8));
                        assert(sig@[0] == png_signature()[0] && sig@[1] == png_signature()[1]);
                        assert(sig@[2] == png_signature()[2] && sig@[3] == png_signature()[3]);
                        assert(sig@[4] == png_signature()[4] && sig@[5] == png_signature()[5]);
                        assert(sig@[6] == png_signature()[6] && sig@[7] == png_signature()[7]);
                    }
                }
                return Err(Error::InvalidSignature);
            }
            assert(s@.take(8) =~= png_signature());
        },
    }
    let first = parse_chunk(s, &mut pos)?;
    if first.chunk_type != ChunkType::IHDR {
        return Err(Error::InvalidPngData("Invalid png file, IHDR must be the first chunk"));
    }
    let h = parse_header(first.data.as_slice())?;
    Ok((h, pos))
}

///Reads the chunks from `pos` up to IEND, keeping the last palette, the last
///tRNS payload and every IDAT payload
pub fn collect_chunks(s: &[u8], pos: usize, ct: ColorType) -> (r: Result<Collected, Error>)
    ensures
        match scan_chunks(s@, pos as int, ct, Seq::empty(), None, Seq::empty(), false) {
            Ok((p, t, d)) => r is Ok && r->Ok_0.palette@ == p && r->Ok_0.idat@ == d && match t {
                Some(t) => r->Ok_0.trns is Some && r->Ok_0.trns->0@ == t,
                None => r->Ok_0.trns is None,
            },
            Err(e) => r == Err::<Collected, Error>(e),
        },
{
    if pos > s.len() {
        proof {
            reveal(scan_chunks);
        }
        return Err(Error::InvalidPngData("truncated stream"));
    }
    let mut cur = pos;
    let ghost total = scan_chunks(s@, pos as int, ct, Seq::empty(), None, Seq::empty(), false);
    let mut palette: Vec<u8> = Vec::new();
    let mut trns: Option<Vec<u8>> = None;
    let mut idat: Vec<u8> = Vec::new();
    let mut seen = false;
    loop
        invariant
            total == scan_chunks(
                s@,
                cur as int,
                ct,
                palette@,
                match trns {
                    Some(t) => Some(t@),
                    None => None,
                },
                idat@,
                seen,
            ),
            cur <= s@.len(),
            total == scan_chunks(s@, pos as int, ct, Seq::empty(), None, Seq::empty(), false),
        decreases s@.len() - cur,
    {
        let ghost p0 = cur;
        proof {
            reveal(scan_chunks);
        }
        let chunk = match parse_chunk(s, &mut cur) {
            Ok(c) => c,
            Err(e) => {
                assert(chunk_at(s@, p0 as int) == Err::<(ChunkType, Seq<u8>, int), Error>(e));
                assert(total == Err::<(Seq<u8>, Option<Seq<u8>>, Seq<u8>), Error>(e));
                return Err(e);
            },
        };
        match chunk.chunk_type {
            ChunkType::IEND => {
                return Ok(Collected { palette, trns, idat });
            },
            ChunkType::IDAT => {
                extend_bytes(&mut idat, chunk.data.as_slice());
                seen = true;
            },
            _ => {
                if seen {
                    return Err(Error::InvalidPngData("IDAT chunks must be consecutive"));
                }
                match chunk.chunk_type {
                    ChunkType::PLTE => {
                        palette = chunk.data;
                    },
                    ChunkType::tRNS => {
                        let ok = match ct {
                            ColorType::Greyscale => chunk.data.len() >= 2,
                            ColorType::Truecolor => chunk.data.len() >= 6,
                            ColorType::IndexedColor => true,
                            _ => {
                                return Err(
                                    Error::InvalidPngData("Image can not contain tRNS chunk"),
                                );
                            },
                        };
                        if !ok {
                            return Err(Error::InvalidPngData("truncated stream"));
                        }
                        trns = Some(chunk.data);
                    },
                    _ => {},
                }
            },
        }
    }
}

/// A scanline of `n` zero bytes: the row above the first one.
pub open spec fn zero_row(n: nat) -> Seq<u8> {
    Seq::new(n, |i: int| 0u8)
}

/// The first `n` scanlines of the inflated data `z`, each of `rl` bytes after its
/// filter byte, reconstructed; or the error for the first bad filter byte.
pub open spec fn unfiltered_rows(z: Seq<u8>, rl: nat, bpp: nat, n: nat) -> Result<Seq<Seq<u8>>, Error>
    decreases n,
{
    if n == 0 {
        Ok(Seq::empty())
    } else {
        match unfiltered_rows(z, rl, bpp, (n - 1) as nat) {
            Err(e) => Err(e),
            Ok(rows) => {
                let start = (n - 1) * (rl + 1);
                let ft = z[start];
                if ft > 4 {
                    Err(Error::InvalidPngData("Invalid filter type"))
                } else {
                    let prev = if n == 1 { zero_row(rl) } else { rows.last() };
                    Ok(rows.push(recon_row(ft, z.subrange(start + 1, start + 1 + rl), prev, bpp)))
                }
            },
        }
    }
}

/// The image that the PNG stream `s` holds, as header, format and pixel bytes,
/// or the error that decoding it ends with.
pub open spec fn decode_spec(s: Seq<u8>) -> Result<(Header, ImageType, Seq<u8>), Error> {
    match stream_header(s) {
        Err(e) => Err(e),
        Ok((hd, next)) => match scan_chunks(
            s,
            next,
            hd.color_type,
            Seq::empty(),
            None,
            Seq::empty(),
            false,
        ) {
            Err(e) => Err(e),
            Ok((palette, trns, idat)) => match zlib_decompressed(idat) {
                None => Err(Error::InvalidPngData("Invalid zlib stream")),
                Some(z) => {
                    let rl = row_bytes(hd);
                    if z.len() < hd.height * (rl + 1) {
                        Err(Error::InvalidPngData("Image data is too short"))
                    } else {
                        match unfiltered_rows(z, rl, bpp_of(hd.color_type, hd.bit_depth), hd.height as nat) {
                            Err(e) => Err(e),
                            Ok(rows) => {
                                let t = trns_spec(hd.color_type, trns);
                                if exists|y: int| 0 <= y < hd.height && !#[trigger] row_in_palette(hd, palette, rows[y]) {
                                    Err(Error::InvalidPngData("Palette index out of range"))
                                } else {
                                    Ok((hd, out_type(hd, !(t is Absent)), concat(rows.map_values(|r: Seq<u8>| row_out(hd, palette, t, r)))))
                                }
                            },
                        }
                    }
                },
            },
        },
    }
}

///Reconstructs the `height` scanlines of the inflated image data `z`
pub fn unfilter_rows(z: &[u8], hd: Header, rl: usize) -> (r: Result<Vec<Vec<u8>>, Error>)
    requires
        rl == row_bytes(hd),
        rl > 0,
        hd.height * (rl + 1) <= z@.len(),
    ensures
        match unfiltered_rows(z@, rl as nat, bpp_of(hd.color_type, hd.bit_depth), hd.height as nat) {
            Ok(rows) => r is Ok && r->Ok_0@.len() == rows.len() && forall|i: int|
                0 <= i < rows.len() ==> (#[trigger] r->Ok_0@[i])@ == rows[i],
            Err(e) => r == Err::<Vec<Vec<u8>>, Error>(e),
        },
{
    let ghost bpp = bpp_of(hd.color_type, hd.bit_depth);
    let zero: Vec<u8> = vec![0u8; rl];
    assert(zero@ =~= zero_row(rl as nat));
    let mut rows: Vec<Vec<u8>> = Vec::new();
    let mut y: usize = 0;
    let mut start: usize = 0;
    let h = hd.height as usize;
    while y < h
        invariant
            h == hd.height,
            rl == row_bytes(hd),
            rl > 0,
            hd.height * (rl + 1) <= z@.len(),
            zero@ == zero_row(rl as nat),
            0 <= y <= h,
            start == y * (rl + 1),
            unfiltered_rows(z@, rl as nat, bpp, y as nat) is Ok,
            rows@.len() == y,
            forall|i: int| 0 <= i < y ==> (#[trigger] rows@[i])@ == unfiltered_rows(z@, rl as nat, bpp, y as nat)->Ok_0[i],
            forall|i: int| 0 <= i < y ==> (#[trigger] rows@[i])@.len() == rl,
            bpp == bpp_of(hd.color_type, hd.bit_depth),
        decreases h - y,
    {
        let ghost done = unfiltered_rows(z@, rl as nat, bpp, y as nat)->Ok_0;
        proof {
            assert(y * (rl + 1) <= hd.height * (rl + 1)) by (nonlinear_arith)
                requires
                    y <= hd.height,
            ;
            lemma_unfiltered_rows_shape(z@, rl as nat, bpp, y as nat);
        }
        assert((y + 1) * (rl + 1) <= hd.height * (rl + 1)) by (nonlinear_arith)
            requires
                y + 1 <= hd.height,
        ;
        assert(y * (rl + 1) + rl + 1 == (y + 1) * (rl + 1)) by (nonlinear_arith);
        let ft = z[start];
        if ft > 4 {
            proof {
                lemma_unfiltered_rows_err(z@, rl as nat, bpp, (y + 1) as nat, hd.height as nat);
            }
            return Err(Error::InvalidPngData("Invalid filter type"));
        }
        let raw = slice_subrange(z, start + 1, start + 1 + rl);
        let row = if y == 0 {
            unfilter_row(ft, raw, zero.as_slice(), hd.color_type, hd.bit_depth)
        } else {
            unfilter_row(ft, raw, rows[y - 1].as_slice(), hd.color_type, hd.bit_depth)
        };
        proof {
            crate::filter::lemma_recon_prefix_len(ft, raw@, if y == 0 { zero@ } else { rows@[y - 1]@ }, bpp, rl as nat);
            if y > 0 {
                assert(done.last() == rows@[y - 1]@);
            }
        }
        rows.push(row);
        start = start + rl + 1;
        y = y + 1;
    }
    proof {
        lemma_unfiltered_rows_shape(z@, rl as nat, bpp, hd.height as nat);
    }
    Ok(rows)
}

/// Whether decoding ends in `r` when `decode_spec` gives `d`.
pub open spec fn decoded_as(d: Result<(Header, ImageType, Seq<u8>), Error>, r: Result<Image, Error>) -> bool {
    match d {
        Ok((hd, t, data)) => r is Ok && r->Ok_0.width == hd.width && r->Ok_0.height == hd.height
            && r->Ok_0.img_type == t && r->Ok_0.data@ == data,
        Err(e) => r == Err::<Image, Error>(e),
    }
}

///Parses a png image from a byte stream
pub fn read_png(data: &[u8]) -> (r: Result<Image, Error>)
    ensures
        decoded_as(decode_spec(data@), r),
        r matches Ok(img) ==> img.wf(),
{
    let (hd, next) = read_header(data)?;
    proof {
        let p = chunk_at(data@, 8)->Ok_0.1;
        assert(header_of(p) == Ok::<Header, Error>(hd));
        reveal(header_of);
        assert(valid_bit_depth(hd.color_type, hd.bit_depth));
        assert(hd.width > 0 && hd.height > 0);
    }
    let collected = collect_chunks(data, next, hd.color_type)?;
    let Collected { palette, trns, idat } = collected;
    let ghost trns_view = match &trns {
        Some(t) => Some(t@),
        None => None,
    };
    let z = match zlib_decompress(idat.as_slice()) {
        Some(z) => z,
        None => return Err(Error::InvalidPngData("Invalid zlib stream")),
    };
    let channels: u64 = match hd.color_type {
        ColorType::IndexedColor | ColorType::Greyscale => 1,
        ColorType::Truecolor => 3,
        ColorType::GreyscaleAlpha => 2,
        ColorType::TruecolorAlpha => 4,
    };
    assert(hd.bit_depth <= 16 && channels <= 4 && channels == crate::helpers::channels(hd.color_type));
    assert((hd.bit_depth as u64) * channels <= 64 && (hd.bit_depth as u64) * channels >= 1) by (nonlinear_arith)
        requires
            1 <= hd.bit_depth <= 16,
            1 <= channels <= 4,
    ;
    let bits = hd.bit_depth as u64 * channels;
    assert(bits * hd.width as u64 <= 0xffff_ffff_ffff) by (nonlinear_arith)
        requires
            bits <= 64,
            hd.width <= 0xffff_ffff,
    ;
    assert(bits * hd.width as u64 >= 1) by (nonlinear_arith)
        requires
            bits >= 1,
            hd.width >= 1,
    ;
    let rl64 = (bits * hd.width as u64 + 7) / 8;
    assert(rl64 == row_bytes(hd));
    let zlen = z.len();
    if rl64 >= zlen as u64 || (hd.height as u64) > (zlen as u64) / (rl64 + 1) {
        proof {
            lemma_rows_fit(hd.height as int, rl64 as int + 1, zlen as int);
            if rl64 >= zlen as u64 {
                assert(hd.height * (rl64 + 1) >= rl64 + 1) by (nonlinear_arith)
                    requires
                        hd.height >= 1,
                ;
            }
        }
        return Err(Error::InvalidPngData("Image data is too short"));
    }
    proof {
        lemma_rows_fit(hd.height as int, rl64 as int + 1, zlen as int);
    }
    let rl = rl64 as usize;
    let rows = unfilter_rows(z.as_slice(), hd, rl)?;
    let ghost rows_spec = unfiltered_rows(z@, rl as nat, bpp_of(hd.color_type, hd.bit_depth), hd.height as nat)->Ok_0;
    proof {
        lemma_unfiltered_rows_shape(z@, rl as nat, bpp_of(hd.color_type, hd.bit_depth), hd.height as nat);
    }
    let pal = Pallete::new(palette);
    proof {
        lemma_scan_trns(data@, next as int, hd.color_type, Seq::empty(), None, Seq::empty(), false);
    }
    let td = transparency(hd.color_type, trns);
    proof {
        lemma_trns_spec_fits(hd.color_type, trns_view);
    }
    let mut out: Vec<u8> = Vec::new();
    let mut y: usize = 0;
    let h = hd.height as usize;
    while y < h
        invariant
            stream_header(data@) == Ok::<(Header, int), Error>((hd, next as int)),
            scan_chunks(data@, next as int, hd.color_type, Seq::empty(), None, Seq::empty(), false)
                == Ok::<(Seq<u8>, Option<Seq<u8>>, Seq<u8>), Error>((pal@, trns_view, idat@)),
            zlib_decompressed(idat@) == Some(z@),
            z@.len() >= hd.height * (rl + 1),
            unfiltered_rows(z@, rl as nat, bpp_of(hd.color_type, hd.bit_depth), hd.height as nat)
                == Ok::<Seq<Seq<u8>>, Error>(rows_spec),
            h == hd.height,
            rl == row_bytes(hd),
            rows@.len() == h,
            rows_spec.len() == h,
            forall|i: int| 0 <= i < h ==> (#[trigger] rows@[i])@ == rows_spec[i],
            forall|i: int| 0 <= i < h ==> (#[trigger] rows_spec[i]).len() == rl,
            valid_bit_depth(hd.color_type, hd.bit_depth),
            crate::pixels::trns_fits(hd.color_type, td@),
            td@ == trns_spec(hd.color_type, trns_view),
            0 <= y <= h,
            forall|i: int| 0 <= i < y ==> #[trigger] row_in_palette(hd, pal@, rows_spec[i]),
            out@ == concat(rows_spec.take(y as int).map_values(|r: Seq<u8>| row_out(hd, pal@, td@, r))),
        decreases h - y,
    {
        match convert_row(hd, &pal, &td, rows[y].as_slice()) {
            None => {
                assert(!row_in_palette(hd, pal@, rows_spec[y as int]));
                assert(exists|yy: int| 0 <= yy < hd.height && !#[trigger] row_in_palette(hd, pal@, rows_spec[yy]));

                return Err(Error::InvalidPngData("Palette index out of range"));
            },
            Some(v) => {
                proof {
                    let f = |r: Seq<u8>| row_out(hd, pal@, td@, r);
                    assert(rows_spec.take(y + 1).map_values(f) =~= rows_spec.take(y as int).map_values(f).push(f(rows_spec[y as int])));
                    lemma_concat_push(rows_spec.take(y as int).map_values(f), f(rows_spec[y as int]));
                }
                extend_bytes(&mut out, v.as_slice());
            },
        }
        y = y + 1;
    }
    proof {
        assert(rows_spec.take(h as int) =~= rows_spec);
        let f = |r: Seq<u8>| row_out(hd, pal@, td@, r);
        let k = bytes_per_pixel(out_type(hd, !(td@ is Absent)));
        let outs = rows_spec.map_values(f);
        assert forall|i: int| 0 <= i < outs.len() implies (#[trigger] outs[i]).len() == (hd.width as nat) * k by {
            lemma_row_out_len(hd, pal@, td@, rows_spec[i]);
        }
        lemma_concat_len(outs, (hd.width as nat) * k);
        assert(h * ((hd.width as nat) * k) == (hd.width as nat) * (hd.height as nat) * k) by (nonlinear_arith)
            requires
                h == hd.height,
        ;
    }
    let img_type = match hd.color_type {
        ColorType::Greyscale => match td {
            TransparencyData::Absent => if hd.bit_depth == 16 { ImageType::R16 } else { ImageType::R8 },
            _ => if hd.bit_depth == 16 { ImageType::Ra16 } else { ImageType::Ra8 },
        },
        ColorType::Truecolor => match td {
            TransparencyData::Absent => if hd.bit_depth == 16 { ImageType::Rgb16 } else { ImageType::Rgb8 },
            _ => if hd.bit_depth == 16 { ImageType::Rgba16 } else { ImageType::Rgba8 },
        },
        ColorType::IndexedColor => match td {
            TransparencyData::Absent => ImageType::Rgb8,
            _ => ImageType::Rgba8,
        },
        ColorType::GreyscaleAlpha => if hd.bit_depth == 16 { ImageType::Ra16 } else { ImageType::Ra8 },
        ColorType::TruecolorAlpha => if hd.bit_depth == 16 { ImageType::Rgba16 } else { ImageType::Rgba8 },
    };
    Ok(Image { width: hd.width, height: hd.height, img_type, data: out })
}

/// `h` rows of `m` bytes fit in `n` bytes exactly when `h <= n / m`.
proof fn lemma_rows_fit(h: int, m: int, n: int)
    requires
        m > 0,
        h >= 0,
        n >= 0,
    ensures
        (h <= n / m) <==> (h * m <= n),
{
    let q = n / m;
    let r = n % m;
    vstd::arithmetic::div_mod::lemma_fundamental_div_mod(n, m);
    vstd::arithmetic::div_mod::lemma_mod_pos_bound(n, m);
    if h <= q {
        assert(h * m <= q * m) by (nonlinear_arith)
            requires
                h <= q,
                m > 0,
        ;
        assert(q * m == m * q) by (nonlinear_arith);
    } else {
        assert(h * m >= (q + 1) * m) by (nonlinear_arith)
            requires
                h >= q + 1,
                m > 0,
        ;
        assert((q + 1) * m == m * q + m) by (nonlinear_arith);
    }
}

/// A tRNS payload that scanning the chunks keeps has the length its color type needs.
pub proof fn lemma_scan_trns(
    s: Seq<u8>,
    pos: int,
    ct: ColorType,
    palette: Seq<u8>,
    trns: Option<Seq<u8>>,
    idat: Seq<u8>,
    seen: bool,
)
    requires
        trns matches Some(t) ==> trns_error(ct, t) is None,
    ensures
        scan_chunks(s, pos, ct, palette, trns, idat, seen) matches Ok((_, t, _)) ==> (t matches Some(
            t,
        ) ==> trns_error(ct, t) is None),
    decreases s.len() - pos,
{
    reveal(scan_chunks);
    match chunk_at(s, pos) {
        Err(_) => {},
        Ok((t, p, next)) => {
            if t is IEND {
            } else if seen && !(t is IDAT) {
            } else if t is IDAT {
                lemma_scan_trns(s, next, ct, palette, trns, idat + p, true);
            } else if t is PLTE {
                lemma_scan_trns(s, next, ct, p, trns, idat, seen);
            } else if t is tRNS {
                if trns_error(ct, p) is None {
                    lemma_scan_trns(s, next, ct, palette, Some(p), idat, seen);
                }
            } else {
                lemma_scan_trns(s, next, ct, palette, trns, idat, seen);
            }
        },
    }
}

/// Reconstructed scanlines: `n` of them, each `rl` bytes long.
pub proof fn lemma_unfiltered_rows_shape(z: Seq<u8>, rl: nat, bpp: nat, n: nat)
    requires
        n * (rl + 1) <= z.len(),
        unfiltered_rows(z, rl, bpp, n) is Ok,
    ensures
        unfiltered_rows(z, rl, bpp, n)->Ok_0.len() == n,
        forall|i: int| 0 <= i < n ==> (#[trigger] unfiltered_rows(z, rl, bpp, n)->Ok_0[i]).len() == rl,
    decreases n,
{
    if n > 0 {
        assert((n - 1) * (rl + 1) <= n * (rl + 1)) by (nonlinear_arith)
            requires
                n > 0,
        ;
        assert((n - 1) * (rl + 1) + rl + 1 == n * (rl + 1)) by (nonlinear_arith)
            requires
                n > 0,
        ;
        lemma_unfiltered_rows_shape(z, rl, bpp, (n - 1) as nat);
        let rows = unfiltered_rows(z, rl, bpp, (n - 1) as nat)->Ok_0;
        let start = (n - 1) * (rl + 1);
        let ft = z[start];
        let prev = if n == 1 { zero_row(rl) } else { rows.last() };
        crate::filter::lemma_recon_prefix_len(ft, z.subrange(start + 1, start + 1 + rl), prev, bpp, rl);
    }
}

/// Once a scanline has a bad filter byte, decoding more scanlines fails the same way.
pub proof fn lemma_unfiltered_rows_err(z: Seq<u8>, rl: nat, bpp: nat, k: nat, n: nat)
    requires
        k <= n,
        unfiltered_rows(z, rl, bpp, k) is Err,
    ensures
        unfiltered_rows(z, rl, bpp, n) == unfiltered_rows(z, rl, bpp, k),
    decreases n - k,
{
    if k < n {
        lemma_unfiltered_rows_err(z, rl, bpp, k, (n - 1) as nat);
    }
}
} // verus!
