//! Properties that relate the encoder and the decoder.
use crate::bytes::{
    be_u32, concat, groups, lemma_concat_append, lemma_concat_groups, lemma_concat_index,
    lemma_concat_len, u32_be,
};
use crate::chunk::{chunk_at, lemma_tag_type, tag_bytes, ChunkType};
use crate::crc::crc32;
use crate::decoding::{
    lemma_unfiltered_rows_shape, decode_spec, header_of, png_signature, scan_chunks, stream_header, unfiltered_rows, zero_row,
    Header,
};
use crate::encoding::{
    chunk_bytes, color_code_for, color_type_for, depth_of, framed, idat_chunks, ihdr_payload,
    image_scanlines, lemma_format_bpp, scanline, scanlines, stream_row, time_chunk, time_payload,
    uses_filter, PngEncodingOptions, PngTime, IDAT_MAX,
};
use crate::filter::{bpp_of, lemma_paeth_round_trip, recon_prefix};
use crate::helpers::{channels, color_type_of, ColorType};
use crate::image::{bytes_per_pixel, is_16_bit_spec, Image};
use crate::pixels::{
    lemma_row_out_len, lemma_trns_spec_fits, is_direct, lemma_row_bytes_wide, out_type, row_bytes, row_in_palette, row_out, swap16,
    trns_spec,
};
use crate::zlib::zlib_decompressed;
use vstd::prelude::*;

verus! {

/// Four big-endian bytes read back give the integer they were made from.
pub proof fn lemma_be_u32_round_trip(v: u32)
    ensures
        be_u32(u32_be(v)) == v,
{
    let b = u32_be(v);
    let b0 = b[0];
    let b1 = b[1];
    let b2 = b[2];
    let b3 = b[3];
    assert(b0 == (v >> 24u32) as u8 && b1 == (v >> 16u32) as u8 && b2 == (v >> 8u32) as u8 && b3 == v as u8);
    assert(((b0 as u32) << 24u32) | ((b1 as u32) << 16u32) | ((b2 as u32) << 8u32) | (b3 as u32) == v) by (bit_vector)
        requires
            b0 == (v >> 24u32) as u8,
            b1 == (v >> 16u32) as u8,
            b2 == (v >> 8u32) as u8,
            b3 == v as u8,
    ;
}

/// Group `p` of a concatenation of equal groups is found at `p * g`.
pub proof fn lemma_concat_group(s: Seq<Seq<u8>>, g: nat, p: int)
    requires
        forall|i: int| 0 <= i < s.len() ==> (#[trigger] s[i]).len() == g,
        0 <= p < s.len(),
    ensures
        p * g + g <= concat(s).len(),
        concat(s).subrange(p * g, p * g + g) == s[p],
{
    lemma_concat_len(s, g);
    assert(p * g + g <= s.len() * g) by (nonlinear_arith)
        requires
            p + 1 <= s.len(),
    ;
    assert(0 <= p * g) by (nonlinear_arith)
        requires
            0 <= p,
    ;
    assert forall|j: int| 0 <= j < g implies #[trigger] concat(s).subrange(p * g, p * g + g)[j] == s[p][j] by {
        lemma_concat_index(s, g, p, j);
    }
    assert(concat(s).subrange(p * g, p * g + g) =~= s[p]);
}

/// A whole chunk is read back as its type and payload.
#[verifier::spinoff_prover]
#[verifier::rlimit(100)]
pub proof fn lemma_chunk_at_frame(a: Seq<u8>, t: ChunkType, p: Seq<u8>, b: Seq<u8>)
    requires
        p.len() <= u32::MAX,
    ensures
        chunk_at(a + chunk_bytes(t, p) + b, a.len() as int) == Ok::<(ChunkType, Seq<u8>, int), crate::decoding::Error>(
            (t, p, a.len() + 12 + p.len() as int),
        ),
        chunk_bytes(t, p).len() == 12 + p.len(),
{
    reveal(chunk_bytes);
    let s = a + chunk_bytes(t, p) + b;
    let pos = a.len() as int;
    let len = p.len() as int;
    lemma_be_u32_round_trip(p.len() as u32);
    lemma_be_u32_round_trip(crc32(tag_bytes(t) + p));
    lemma_tag_type(t);
    assert(s.subrange(pos, pos + 4) =~= u32_be(p.len() as u32));
    let body = s.subrange(pos + 4, pos + 8 + len);
    assert(body =~= tag_bytes(t) + p);
    assert(s.subrange(pos + 8 + len, pos + 12 + len) =~= u32_be(crc32(tag_bytes(t) + p)));
    assert(body.take(4) =~= tag_bytes(t));
    assert(body.skip(4) =~= p);
}

/// The header that the encoder writes for an image.
pub open spec fn header_for(img: Image) -> Header {
    Header {
        width: img.width,
        height: img.height,
        bit_depth: depth_of(img.img_type),
        color_type: color_type_for(img.img_type),
    }
}

/// The IHDR payload that the encoder writes is read as the image's header.
pub proof fn lemma_header_of_ihdr(img: Image)
    requires
        img.wf(),
    ensures
        header_of(ihdr_payload(img.width, img.height, img.img_type)) == Ok::<Header, crate::decoding::Error>(
            header_for(img),
        ),
{
    reveal(header_of);
    let ih = ihdr_payload(img.width, img.height, img.img_type);
    lemma_be_u32_round_trip(img.width);
    lemma_be_u32_round_trip(img.height);
    assert(ih.subrange(0, 4) =~= u32_be(img.width));
    assert(ih.subrange(4, 8) =~= u32_be(img.height));
    assert(color_type_of(color_code_for(img.img_type)) == color_type_for(img.img_type));
}

/// The signature and IHDR chunk that the encoder writes are read back as the
/// image's header, whatever follows them.
pub proof fn lemma_stream_header_of(img: Image, s: Seq<u8>, rest: Seq<u8>)
    requires
        img.wf(),
        s == png_signature() + chunk_bytes(ChunkType::IHDR, ihdr_payload(img.width, img.height, img.img_type)) + rest,
    ensures
        stream_header(s) == Ok::<(Header, int), crate::decoding::Error>((header_for(img), 33)),
{
    let ih = ihdr_payload(img.width, img.height, img.img_type);
    lemma_first_chunk(s, ih, rest);
    lemma_header_of_ihdr(img);
}

/// After the signature, the IHDR chunk is read back.
#[verifier::spinoff_prover]
#[verifier::rlimit(100)]
proof fn lemma_first_chunk(s: Seq<u8>, ih: Seq<u8>, rest: Seq<u8>)
    requires
        ih.len() == 13,
        s == png_signature() + chunk_bytes(ChunkType::IHDR, ih) + rest,
    ensures
        s.len() >= 8 && s.take(8) == png_signature(),
        chunk_at(s, 8) == Ok::<(ChunkType, Seq<u8>, int), crate::decoding::Error>((ChunkType::IHDR, ih, 33)),
{
    lemma_chunk_at_frame(png_signature(), ChunkType::IHDR, ih, rest);
    assert(s.take(8) =~= png_signature());
}

/// The signature and IHDR chunk that the encoder writes are read back as the image's header.
pub proof fn lemma_stream_header_framed(img: Image, time: Option<PngTime>, c: Seq<u8>)
    requires
        img.wf(),
    ensures
        stream_header(framed(img, time, c)) == Ok::<(Header, int), crate::decoding::Error>((header_for(img), 33)),
{
    let ih = ihdr_payload(img.width, img.height, img.img_type);
    let rest = time_chunk(time) + idat_chunks(c) + chunk_bytes(ChunkType::IEND, Seq::empty());
    assert(framed(img, time, c) =~= png_signature() + chunk_bytes(ChunkType::IHDR, ih) + rest);
    lemma_stream_header_of(img, framed(img, time, c), rest);
}

/// One chunk step of the scan, for an IDAT chunk, an IEND chunk and a chunk that is skipped.
proof fn lemma_scan_step(
    s: Seq<u8>,
    pos: int,
    t: ChunkType,
    p: Seq<u8>,
    next: int,
    ct: ColorType,
    palette: Seq<u8>,
    trns: Option<Seq<u8>>,
    acc: Seq<u8>,
    seen: bool,
)
    requires
        chunk_at(s, pos) == Ok::<(ChunkType, Seq<u8>, int), crate::decoding::Error>((t, p, next)),
    ensures
        t is IDAT ==> scan_chunks(s, pos, ct, palette, trns, acc, seen) == scan_chunks(
            s,
            next,
            ct,
            palette,
            trns,
            acc + p,
            true,
        ),
        t is IEND ==> scan_chunks(s, pos, ct, palette, trns, acc, seen) == Ok::<
            (Seq<u8>, Option<Seq<u8>>, Seq<u8>),
            crate::decoding::Error,
        >((palette, trns, acc)),
        (t is tIME && !seen) ==> scan_chunks(s, pos, ct, palette, trns, acc, seen) == scan_chunks(
            s,
            next,
            ct,
            palette,
            trns,
            acc,
            seen,
        ),
{
    reveal(scan_chunks);
}

/// IDAT chunks that carry `c` add `c` to the data collected so far.
#[verifier::spinoff_prover]
#[verifier::rlimit(100)]
pub proof fn lemma_scan_idat(
    s: Seq<u8>,
    pre: Seq<u8>,
    c: Seq<u8>,
    post: Seq<u8>,
    ct: ColorType,
    palette: Seq<u8>,
    trns: Option<Seq<u8>>,
    acc: Seq<u8>,
    seen: bool,
)
    requires
        s == pre + idat_chunks(c) + post,
    ensures
        scan_chunks(s, pre.len() as int, ct, palette, trns, acc, seen) == scan_chunks(
            s,
            pre.len() + idat_chunks(c).len() as int,
            ct,
            palette,
            trns,
            acc + c,
            true,
        ),
    decreases c.len(),
{
    if c.len() <= IDAT_MAX {
        lemma_chunk_at_frame(pre, ChunkType::IDAT, c, post);
        lemma_scan_step(s, pre.len() as int, ChunkType::IDAT, c, pre.len() + 12 + c.len() as int, ct, palette, trns, acc, seen);
    } else {
        let head = c.take(IDAT_MAX as int);
        let tail = c.skip(IDAT_MAX as int);
        let first = chunk_bytes(ChunkType::IDAT, head);
        assert(idat_chunks(c) == first + idat_chunks(tail));
        assert(s =~= pre + first + (idat_chunks(tail) + post));
        lemma_chunk_at_frame(pre, ChunkType::IDAT, head, idat_chunks(tail) + post);
        lemma_scan_step(s, pre.len() as int, ChunkType::IDAT, head, pre.len() + 12 + head.len() as int, ct, palette, trns, acc, seen);
        assert(s =~= (pre + first) + idat_chunks(tail) + post);
        lemma_scan_idat(s, pre + first, tail, post, ct, palette, trns, acc + head, true);
        assert(acc + head + tail =~= acc + c);
    }
}

/// The chunks after the header that the encoder writes collect to no palette,
/// no tRNS payload and the compressed data `c`.
#[verifier::spinoff_prover]
#[verifier::rlimit(100)]
pub proof fn lemma_scan_framed(img: Image, time: Option<PngTime>, c: Seq<u8>, ct: ColorType)
    ensures
        scan_chunks(framed(img, time, c), 33, ct, Seq::empty(), None, Seq::empty(), false) == Ok::<
            (Seq<u8>, Option<Seq<u8>>, Seq<u8>),
            crate::decoding::Error,
        >((Seq::empty(), None, c)),
{
    let s = framed(img, time, c);
    let ih = chunk_bytes(ChunkType::IHDR, ihdr_payload(img.width, img.height, img.img_type));
    let head = png_signature() + ih;
    let end = chunk_bytes(ChunkType::IEND, Seq::empty());
    lemma_chunk_at_frame(png_signature(), ChunkType::IHDR, ihdr_payload(img.width, img.height, img.img_type), Seq::empty());
    assert(ih.len() == 25);
    let pre = head + time_chunk(time);
    match time {
        Some(t) => {
            assert(s =~= head + chunk_bytes(ChunkType::tIME, time_payload(t)) + (idat_chunks(c) + end));
            lemma_chunk_at_frame(head, ChunkType::tIME, time_payload(t), idat_chunks(c) + end);
            lemma_scan_step(s, 33, ChunkType::tIME, time_payload(t), 33int + 12 + 7, ct, Seq::empty(), None, Seq::empty(), false);
        },
        None => {
            assert(pre =~= head);
        },
    }
    assert(s =~= pre + idat_chunks(c) + end);
    lemma_scan_idat(s, pre, c, end, ct, Seq::empty(), None, Seq::empty(), false);
    assert(s =~= (pre + idat_chunks(c)) + end + Seq::empty());
    lemma_chunk_at_frame(pre + idat_chunks(c), ChunkType::IEND, Seq::empty(), Seq::empty());
    lemma_scan_step(s, (pre + idat_chunks(c)).len() as int, ChunkType::IEND, Seq::empty(), s.len() as int, ct, Seq::empty(), None, c, true);
    assert(Seq::<u8>::empty() + c =~= c);
}
/// Swapping the bytes of each pair twice gives the bytes back.
pub proof fn lemma_swap16_twice(s: Seq<u8>)
    requires
        s.len() % 2 == 0,
    ensures
        swap16(swap16(s)) == s,
{
    assert forall|i: int| 0 <= i < s.len() implies #[trigger] swap16(swap16(s))[i] == s[i] by {
        if i % 2 == 0 {
            assert((i + 1) % 2 == 1);
        } else {
            assert((i - 1) % 2 == 0);
        }
    }
    assert(swap16(swap16(s)) =~= s);
}

/// Reconstructing a row that was written without filter gives it back.
pub proof fn lemma_recon_none(raw: Seq<u8>, prev: Seq<u8>, bpp: nat, n: nat)
    requires
        n <= raw.len(),
    ensures
        recon_prefix(0, raw, prev, bpp, n) == raw.take(n as int),
    decreases n,
{
    if n > 0 {
        lemma_recon_none(raw, prev, bpp, (n - 1) as nat);
        assert(raw.take(n as int) =~= raw.take(n - 1).push(raw[n - 1]));
    }
}

/// Sizes of an image's rows: `height` rows of `width * bytes_per_pixel` bytes.
pub proof fn lemma_image_rows(img: Image, y: int)
    requires
        img.wf(),
        0 <= y < img.height,
    ensures
        ({
            let rb = img.width * bytes_per_pixel(img.img_type);
            &&& rb > 0
            &&& img.data@.len() == img.height * rb
            &&& 0 <= y * rb
            &&& y * rb + rb <= img.data@.len()
            &&& stream_row(img, y).len() == rb
            &&& stream_row(img, y).len() % 2 == 0 || !is_16_bit_spec(img.img_type)
        }),
{
    let rb = img.width * bytes_per_pixel(img.img_type);
    let b = bytes_per_pixel(img.img_type);
    assert(rb > 0) by (nonlinear_arith)
        requires
            rb == img.width * b,
            img.width > 0,
            b > 0,
    ;
    assert(img.data@.len() == img.height * rb) by (nonlinear_arith)
        requires
            img.data@.len() == img.width * img.height * b,
            rb == img.width * b,
    ;
    assert(y * rb + rb <= img.height * rb) by (nonlinear_arith)
        requires
            y + 1 <= img.height,
            rb > 0,
    ;
    assert(0 <= y * rb) by (nonlinear_arith)
        requires
            0 <= y,
            rb > 0,
    ;
    if is_16_bit_spec(img.img_type) {
        let k = b / 2;
        assert(b == 2 * k);
        assert(rb == 2 * (img.width * k)) by (nonlinear_arith)
            requires
                rb == img.width * b,
                b == 2 * k,
        ;
    }
}

/// The scanlines that the encoder compresses, unfiltered, are the image's rows
/// with samples high byte first.
pub proof fn lemma_unfiltered_encoded(img: Image, filter: bool, n: nat)
    requires
        img.wf(),
        n <= img.height,
    ensures
        unfiltered_rows(
            scanlines(img, filter, img.height as int),
            (img.width * bytes_per_pixel(img.img_type)) as nat,
            bytes_per_pixel(img.img_type),
            n,
        ) == Ok::<Seq<Seq<u8>>, crate::decoding::Error>(Seq::new(n, |y: int| stream_row(img, y))),
    decreases n,
{
    let rb: nat = (img.width * bytes_per_pixel(img.img_type)) as nat;
    let bpp = bytes_per_pixel(img.img_type);
    let h = img.height as int;
    let g = |y: int| scanline(img, filter, y);
    let lines = Seq::new(h as nat, g);
    let z = scanlines(img, filter, h);
    if n > 0 {
        lemma_unfiltered_encoded(img, filter, (n - 1) as nat);
        let y = n - 1;
        lemma_image_rows(img, y);
        assert forall|i: int| 0 <= i < lines.len() implies (#[trigger] lines[i]).len() == rb + 1 by {
            lemma_image_rows(img, i);
        }
        lemma_concat_group(lines, rb + 1nat, y);
        let line = scanline(img, filter, y);
        let start = y * (rb + 1);
        assert(z.subrange(start, start + rb + 1) == line);
        assert(z[start] == line[0]);
        assert(z.subrange(start + 1, start + 1 + rb) =~= line.subrange(1, rb as int + 1));
        let prev = if n == 1 {
            zero_row(rb)
        } else {
            stream_row(img, y - 1)
        };
        if n > 1 {
            lemma_image_rows(img, y - 1);
        }
        let rows = Seq::new((n - 1) as nat, |k: int| stream_row(img, k));
        if n > 1 {
            assert(rows.last() == stream_row(img, y - 1));
        }
        if filter {
            assert(line.subrange(1, rb as int + 1) =~= crate::filter::paeth_filtered(stream_row(img, y), prev, bpp));
            lemma_paeth_round_trip(stream_row(img, y), prev, bpp);
        } else {
            assert(line.subrange(1, rb as int + 1) =~= stream_row(img, y));
            lemma_recon_none(stream_row(img, y), prev, bpp, rb);
            assert(stream_row(img, y).take(rb as int) =~= stream_row(img, y));
        }
        assert(rows.push(stream_row(img, y)) =~= Seq::new(n, |k: int| stream_row(img, k)));
    } else {
        assert(Seq::new(0, |y: int| stream_row(img, y)) =~= Seq::<Seq<u8>>::empty());
    }
}
/// Round trip: decoding what the encoder writes for a well-formed image gives
/// the image back (its header, its format and its bytes), whatever the
/// compression setting and tIME moment. `c` is the compressed scanline data,
/// which the encoder's contract says inflates back to those scanlines.
#[verifier::spinoff_prover]
#[verifier::rlimit(100)]
pub proof fn lemma_round_trip(img: Image, options: PngEncodingOptions, time: Option<PngTime>, c: Seq<u8>)
    requires
        img.wf(),
        zlib_decompressed(c) == Some(image_scanlines(img, options)),
    ensures
        decode_spec(framed(img, time, c)) == Ok::<
            (Header, crate::image::ImageType, Seq<u8>),
            crate::decoding::Error,
        >((header_for(img), img.img_type, img.data@)),
{
    let s = framed(img, time, c);
    let hd = header_for(img);
    let t = img.img_type;
    let filter = uses_filter(options.compression);
    let h = img.height as int;
    let rb: nat = (img.width * bytes_per_pixel(t)) as nat;
    let bpp = bytes_per_pixel(t);
    let z = image_scanlines(img, options);
    lemma_stream_header_framed(img, time, c);
    lemma_scan_framed(img, time, c, hd.color_type);
    lemma_format_bpp(t);
    lemma_row_bytes_wide(hd);
    lemma_image_rows(img, 0);
    assert(row_bytes(hd) == rb) by {
        let ch = channels(hd.color_type);
        let w = img.width as nat;
        if depth_of(t) == 8 {
            assert(ch * w == w * bpp) by (nonlinear_arith)
                requires
                    ch == bpp,
            ;
        } else {
            assert(2 * ch * w == w * bpp) by (nonlinear_arith)
                requires
                    2 * ch == bpp,
            ;
        }
    }
    let g = |y: int| scanline(img, filter, y);
    let lines = Seq::new(h as nat, g);
    assert forall|i: int| 0 <= i < lines.len() implies (#[trigger] lines[i]).len() == rb + 1 by {
        lemma_image_rows(img, i);
    }
    lemma_concat_len(lines, rb + 1);
    assert(z.len() == h * (rb + 1));
    lemma_unfiltered_encoded(img, filter, h as nat);
    let rows = Seq::new(h as nat, |y: int| stream_row(img, y));
    assert(unfiltered_rows(z, row_bytes(hd), bpp_of(hd.color_type, hd.bit_depth), hd.height as nat) == Ok::<
        Seq<Seq<u8>>,
        crate::decoding::Error,
    >(rows));
    let tr = trns_spec(hd.color_type, None);
    assert(tr is Absent);
    assert(!(exists|y: int| 0 <= y < hd.height && !#[trigger] row_in_palette(hd, Seq::empty(), rows[y])));
    let f = |r: Seq<u8>| row_out(hd, Seq::empty(), tr, r);
    let d = img.data@;
    let gs = groups(d, rb);
    assert(d.len() == h * rb);
    assert((d.len() as int) / (rb as int) == h && (d.len() as int) % (rb as int) == 0) by {
        vstd::arithmetic::div_mod::lemma_div_multiples_vanish(h, rb as int);
        vstd::arithmetic::div_mod::lemma_mod_multiples_basic(h, rb as int);
        assert(h * rb == rb * h) by (nonlinear_arith);
    }
    assert forall|y: int| 0 <= y < h implies #[trigger] rows.map_values(f)[y] == gs[y] by {
        lemma_image_rows(img, y);
        assert(is_direct(hd, tr));
        if is_16_bit_spec(t) {
            assert(d.subrange(y * rb, y * rb + rb).len() % 2 == 0);
            lemma_swap16_twice(d.subrange(y * rb, y * rb + rb));
        }
    }
    assert(rows.map_values(f) =~= gs);
    lemma_concat_groups(d, rb);
    assert(out_type(hd, !(tr is Absent)) == t);
}

/// The compression setting does not change what decoding the encoder's output gives.
pub proof fn lemma_compression_irrelevant(
    img: Image,
    a: PngEncodingOptions,
    b: PngEncodingOptions,
    ta: Option<PngTime>,
    tb: Option<PngTime>,
    ca: Seq<u8>,
    cb: Seq<u8>,
)
    requires
        img.wf(),
        zlib_decompressed(ca) == Some(image_scanlines(img, a)),
        zlib_decompressed(cb) == Some(image_scanlines(img, b)),
    ensures
        decode_spec(framed(img, ta, ca)) == decode_spec(framed(img, tb, cb)),
{
    lemma_round_trip(img, a, ta, ca);
    lemma_round_trip(img, b, tb, cb);
}
/// Four bytes are the big-endian bytes of the integer they hold.
pub proof fn lemma_u32_be_of_bytes(b: Seq<u8>)
    requires
        b.len() == 4,
    ensures
        u32_be(be_u32(b)) == b,
{
    let b0 = b[0];
    let b1 = b[1];
    let b2 = b[2];
    let b3 = b[3];
    let v = be_u32(b);
    assert((v >> 24u32) as u8 == b0 && (v >> 16u32) as u8 == b1 && (v >> 8u32) as u8 == b2 && v as u8 == b3) by (bit_vector)
        requires
            v == ((b0 as u32) << 24u32) | ((b1 as u32) << 16u32) | ((b2 as u32) << 8u32) | (b3 as u32),
    ;
    assert(u32_be(v) =~= b);
}

/// A chunk with one byte of its CRC field changed is refused with `InvalidCrc`.
#[verifier::spinoff_prover]
#[verifier::rlimit(100)]
pub proof fn lemma_corrupted_crc(a: Seq<u8>, t: ChunkType, p: Seq<u8>, b: Seq<u8>, k: int, v: u8)
    requires
        p.len() <= u32::MAX,
        0 <= k < 4,
        v != chunk_bytes(t, p)[8 + p.len() + k],
    ensures
        chunk_at(a + chunk_bytes(t, p).update(8 + p.len() + k, v) + b, a.len() as int) == Err::<
            (ChunkType, Seq<u8>, int),
            crate::decoding::Error,
        >(crate::decoding::Error::InvalidCrc),
{
    reveal(chunk_bytes);
    let f = chunk_bytes(t, p);
    let len = p.len() as int;
    let bad = f.update(8 + len + k, v);
    let s = a + bad + b;
    let pos = a.len() as int;
    let good = u32_be(crc32(tag_bytes(t) + p));
    lemma_be_u32_round_trip(p.len() as u32);
    assert(s.subrange(pos, pos + 4) =~= u32_be(p.len() as u32));
    assert(s.subrange(pos + 4, pos + 8 + len) =~= tag_bytes(t) + p);
    let field = s.subrange(pos + 8 + len, pos + 12 + len);
    assert(field =~= good.update(k, v));
    assert(field[k] != good[k]);
    lemma_u32_be_of_bytes(field);
    lemma_be_u32_round_trip(crc32(tag_bytes(t) + p));
    assert(be_u32(field) != crc32(tag_bytes(t) + p));
}

/// A stream whose signature is right and whose first chunk has one CRC byte
/// changed is refused with `InvalidCrc`.
pub proof fn lemma_corrupted_first_crc(t: ChunkType, p: Seq<u8>, b: Seq<u8>, k: int, v: u8)
    requires
        p.len() <= u32::MAX,
        0 <= k < 4,
        v != chunk_bytes(t, p)[8 + p.len() + k],
    ensures
        decode_spec(png_signature() + chunk_bytes(t, p).update(8 + p.len() + k, v) + b) == Err::<
            (Header, crate::image::ImageType, Seq<u8>),
            crate::decoding::Error,
        >(crate::decoding::Error::InvalidCrc),
{
    let s = png_signature() + chunk_bytes(t, p).update(8 + p.len() + k, v) + b;
    lemma_corrupted_crc(png_signature(), t, p, b, k, v);
    assert(s.take(8) =~= png_signature());
}
/// A scan that meets a chunk it cannot read ends with that chunk's error.
proof fn lemma_scan_error(
    s: Seq<u8>,
    pos: int,
    e: crate::decoding::Error,
    ct: ColorType,
    palette: Seq<u8>,
    trns: Option<Seq<u8>>,
    acc: Seq<u8>,
    seen: bool,
)
    requires
        chunk_at(s, pos) == Err::<(ChunkType, Seq<u8>, int), crate::decoding::Error>(e),
    ensures
        scan_chunks(s, pos, ct, palette, trns, acc, seen) == Err::<
            (Seq<u8>, Option<Seq<u8>>, Seq<u8>),
            crate::decoding::Error,
        >(e),
{
    reveal(scan_chunks);
}

/// Length of a whole chunk.
pub proof fn lemma_chunk_len(t: ChunkType, p: Seq<u8>)
    ensures
        chunk_bytes(t, p).len() == 12 + p.len(),
{
    reveal(chunk_bytes);
}

/// Whether byte `i` of `idat_chunks(c)` lies in the CRC field of one of its chunks.
pub open spec fn idat_crc_byte(c: Seq<u8>, i: int) -> bool
    decreases c.len(),
{
    if c.len() <= IDAT_MAX {
        8 + c.len() <= i < 12 + c.len()
    } else {
        (8 + IDAT_MAX <= i < 12 + IDAT_MAX) || (i >= 12 + IDAT_MAX && idat_crc_byte(
            c.skip(IDAT_MAX as int),
            i - 12 - IDAT_MAX,
        ))
    }
}

/// Whether byte `i` of the encoder's stream lies in the CRC field of one of its chunks.
pub open spec fn framed_crc_byte(img: Image, time: Option<PngTime>, c: Seq<u8>, i: int) -> bool {
    let q = 33 + time_chunk(time).len();
    let e = q + idat_chunks(c).len();
    ||| 29 <= i < 33
    ||| (time is Some && 48 <= i < 52)
    ||| (q <= i < e && idat_crc_byte(c, i - q))
    ||| (e + 8 <= i < e + 12)
}

/// A CRC byte of the IDAT chunks lies inside them.
proof fn lemma_idat_crc_in_range(c: Seq<u8>, i: int)
    requires
        idat_crc_byte(c, i),
    ensures
        0 <= i < idat_chunks(c).len(),
    decreases c.len(),
{
    if c.len() <= IDAT_MAX {
        lemma_chunk_len(ChunkType::IDAT, c);
    } else {
        let head = c.take(IDAT_MAX as int);
        let tail = c.skip(IDAT_MAX as int);
        lemma_chunk_len(ChunkType::IDAT, head);
        if i >= 12 + IDAT_MAX {
            lemma_idat_crc_in_range(tail, i - 12 - IDAT_MAX);
        }
    }
}

/// IDAT chunks with one CRC byte changed stop the scan with `InvalidCrc`.
#[verifier::spinoff_prover]
#[verifier::rlimit(100)]
proof fn lemma_scan_idat_corrupted(
    s: Seq<u8>,
    pre: Seq<u8>,
    c: Seq<u8>,
    post: Seq<u8>,
    i: int,
    v: u8,
    ct: ColorType,
    palette: Seq<u8>,
    trns: Option<Seq<u8>>,
    acc: Seq<u8>,
    seen: bool,
)
    requires
        idat_crc_byte(c, i),
        v != idat_chunks(c)[i],
        s == pre + idat_chunks(c).update(i, v) + post,
    ensures
        scan_chunks(s, pre.len() as int, ct, palette, trns, acc, seen) == Err::<
            (Seq<u8>, Option<Seq<u8>>, Seq<u8>),
            crate::decoding::Error,
        >(crate::decoding::Error::InvalidCrc),
    decreases c.len(),
{
    let pos = pre.len() as int;
    if c.len() <= IDAT_MAX {
        lemma_chunk_len(ChunkType::IDAT, c);
        let k = i - 8 - c.len();
        lemma_corrupted_crc(pre, ChunkType::IDAT, c, post, k, v);
        lemma_scan_error(s, pos, crate::decoding::Error::InvalidCrc, ct, palette, trns, acc, seen);
    } else {
        let head = c.take(IDAT_MAX as int);
        let tail = c.skip(IDAT_MAX as int);
        let first = chunk_bytes(ChunkType::IDAT, head);
        let rest = idat_chunks(tail);
        lemma_chunk_len(ChunkType::IDAT, head);
        assert(idat_chunks(c) == first + rest);
        if i < 12 + IDAT_MAX {
            assert(idat_chunks(c).update(i, v) =~= first.update(i, v) + rest);
            assert(s =~= pre + first.update(i, v) + (rest + post));
            lemma_corrupted_crc(pre, ChunkType::IDAT, head, rest + post, i - 8 - IDAT_MAX, v);
            lemma_scan_error(s, pos, crate::decoding::Error::InvalidCrc, ct, palette, trns, acc, seen);
        } else {
            let j = i - 12 - IDAT_MAX;
            lemma_idat_crc_in_range(tail, j);
            assert(idat_chunks(c)[i] == rest[j]);
            assert(idat_chunks(c).update(i, v) =~= first + rest.update(j, v));
            assert(s =~= pre + first + (rest.update(j, v) + post));
            lemma_chunk_at_frame(pre, ChunkType::IDAT, head, rest.update(j, v) + post);
            lemma_scan_step(s, pos, ChunkType::IDAT, head, pos + 12 + IDAT_MAX, ct, palette, trns, acc, seen);
            assert(s =~= (pre + first) + rest.update(j, v) + post);
            lemma_scan_idat_corrupted(s, pre + first, tail, post, j, v, ct, palette, trns, acc + head, true);
        }
    }
}

/// Changing one byte of the CRC field of any chunk that the encoder writes
/// makes decoding fail with `InvalidCrc`.
#[verifier::spinoff_prover]
#[verifier::rlimit(100)]
pub proof fn lemma_corrupted_crc_refused(img: Image, time: Option<PngTime>, c: Seq<u8>, i: int, v: u8)
    requires
        img.wf(),
        framed_crc_byte(img, time, c, i),
        v != framed(img, time, c)[i],
    ensures
        decode_spec(framed(img, time, c).update(i, v)) == Err::<
            (Header, crate::image::ImageType, Seq<u8>),
            crate::decoding::Error,
        >(crate::decoding::Error::InvalidCrc),
{
    let ih = ihdr_payload(img.width, img.height, img.img_type);
    let cih = chunk_bytes(ChunkType::IHDR, ih);
    let tc = time_chunk(time);
    let ic = idat_chunks(c);
    let ec = chunk_bytes(ChunkType::IEND, Seq::empty());
    let sig = png_signature();
    let s = framed(img, time, c);
    let bad = s.update(i, v);
    lemma_chunk_len(ChunkType::IHDR, ih);
    lemma_chunk_len(ChunkType::IEND, Seq::empty());
    if let Some(tm) = time {
        lemma_chunk_len(ChunkType::tIME, time_payload(tm));
    }
    let q: int = 33 + tc.len() as int;
    let e: int = q + ic.len() as int;
    let ct = color_type_for(img.img_type);
    if 29 <= i < 33 {
        assert(bad =~= sig + cih.update(i - 8, v) + (tc + ic + ec));
        lemma_corrupted_first_crc(ChunkType::IHDR, ih, tc + ic + ec, i - 29, v);
    } else {
        let hd = header_for(img);
        let pre = sig + cih;
        if time is Some && 48 <= i < 52 {
            let tm = time->0;
            let rest = tc.update(i - 33, v) + ic + ec;
            assert(bad =~= pre + rest);
            lemma_stream_header_of(img, bad, rest);
            assert(bad =~= pre + chunk_bytes(ChunkType::tIME, time_payload(tm)).update(i - 33, v) + (ic + ec));
            lemma_corrupted_crc(pre, ChunkType::tIME, time_payload(tm), ic + ec, i - 48, v);
            lemma_scan_error(bad, 33, crate::decoding::Error::InvalidCrc, ct, Seq::empty(), None, Seq::empty(), false);
        } else {
            // the corrupted byte lies in an IDAT chunk or in the IEND chunk
            let tail = if q <= i < e {
                ic.update(i - q, v) + ec
            } else {
                ic + ec.update(i - e, v)
            };
            assert(bad =~= pre + (tc + tail));
            lemma_stream_header_of(img, bad, tc + tail);
            if let Some(tm) = time {
                assert(bad =~= pre + chunk_bytes(ChunkType::tIME, time_payload(tm)) + tail);
                lemma_chunk_at_frame(pre, ChunkType::tIME, time_payload(tm), tail);
                lemma_scan_step(bad, 33, ChunkType::tIME, time_payload(tm), q, ct, Seq::empty(), None, Seq::empty(), false);
            }
            let tpre = pre + tc;
            if q <= i < e {
                assert(bad =~= tpre + ic.update(i - q, v) + ec);
                lemma_scan_idat_corrupted(bad, tpre, c, ec, i - q, v, ct, Seq::empty(), None, Seq::empty(), false);
            } else {
                assert(bad =~= tpre + ic + ec.update(i - e, v));
                lemma_scan_idat(bad, tpre, c, ec.update(i - e, v), ct, Seq::empty(), None, Seq::empty(), false);
                assert(bad =~= (tpre + ic) + ec.update(i - e, v) + Seq::empty());
                lemma_corrupted_crc(tpre + ic, ChunkType::IEND, Seq::empty(), Seq::empty(), i - e - 8, v);
                lemma_scan_error(bad, e, crate::decoding::Error::InvalidCrc, ct, Seq::empty(), None, Seq::empty() + c, true);
            }
        }
    }
}
/// The bytes of a list of chunks, one after another.
pub open spec fn frames(l: Seq<(ChunkType, Seq<u8>)>) -> Seq<u8> {
    concat(l.map_values(|c: (ChunkType, Seq<u8>)| chunk_bytes(c.0, c.1)))
}

/// Where the CRC field of chunk `j` of a stream `signature + frames(l)` starts.
pub open spec fn crc_field_at(l: Seq<(ChunkType, Seq<u8>)>, j: int) -> int {
    8 + frames(l.take(j)).len() as int + 8 + l[j].1.len() as int
}

/// The bytes of a list of chunks split around chunk `j`.
proof fn lemma_frames_split(l: Seq<(ChunkType, Seq<u8>)>, j: int)
    requires
        0 <= j < l.len(),
    ensures
        frames(l) == frames(l.take(j)) + chunk_bytes(l[j].0, l[j].1) + frames(l.skip(j + 1)),
{
    let f = |c: (ChunkType, Seq<u8>)| chunk_bytes(c.0, c.1);
    assert(l.map_values(f) =~= l.take(j).map_values(f) + seq![f(l[j])] + l.skip(j + 1).map_values(f));
    lemma_concat_append(l.take(j).map_values(f) + seq![f(l[j])], l.skip(j + 1).map_values(f));
    lemma_concat_append(l.take(j).map_values(f), seq![f(l[j])]);
    assert(seq![f(l[j])] =~= Seq::<Seq<u8>>::empty().push(f(l[j])));
    crate::bytes::lemma_concat_push(Seq::<Seq<u8>>::empty(), f(l[j]));
    assert(concat(Seq::<Seq<u8>>::empty()) == Seq::<u8>::empty());
    assert(concat(seq![f(l[j])]) =~= f(l[j]));
}

/// Scanning a run of readable chunks that holds no IEND and that the unchanged
/// stream gets through, then a chunk whose CRC field was changed, ends with `InvalidCrc`.
#[verifier::spinoff_prover]
#[verifier::rlimit(100)]
proof fn lemma_scan_reaches_bad_crc(
    s: Seq<u8>,
    s2: Seq<u8>,
    pre: Seq<u8>,
    m: Seq<(ChunkType, Seq<u8>)>,
    bad: Seq<u8>,
    good: Seq<u8>,
    post: Seq<u8>,
    ct: ColorType,
    palette: Seq<u8>,
    trns: Option<Seq<u8>>,
    acc: Seq<u8>,
    seen: bool,
)
    requires
        s == pre + frames(m) + good + post,
        s2 == pre + frames(m) + bad + post,
        bad.len() == good.len(),
        chunk_at(s2, pre.len() + frames(m).len() as int) == Err::<(ChunkType, Seq<u8>, int), crate::decoding::Error>(
            crate::decoding::Error::InvalidCrc,
        ),
        forall|i: int| 0 <= i < m.len() ==> (#[trigger] m[i]).1.len() <= u32::MAX,
        forall|i: int| 0 <= i < m.len() ==> !((#[trigger] m[i]).0 is IEND),
        scan_chunks(s, pre.len() as int, ct, palette, trns, acc, seen) is Ok,
    ensures
        scan_chunks(s2, pre.len() as int, ct, palette, trns, acc, seen) == Err::<
            (Seq<u8>, Option<Seq<u8>>, Seq<u8>),
            crate::decoding::Error,
        >(crate::decoding::Error::InvalidCrc),
    decreases m.len(),
{
    let pos = pre.len() as int;
    if m.len() == 0 {
        assert(frames(m) =~= Seq::<u8>::empty()) by {
            assert(m.map_values(|c: (ChunkType, Seq<u8>)| chunk_bytes(c.0, c.1)) =~= Seq::<Seq<u8>>::empty());
        }
        lemma_scan_error(s2, pos, crate::decoding::Error::InvalidCrc, ct, palette, trns, acc, seen);
    } else {
        let (t, p) = m[0];
        let rest = m.drop_first();
        lemma_frames_split(m, 0);
        assert(m.take(0) =~= Seq::<(ChunkType, Seq<u8>)>::empty());
        assert(m.skip(1) =~= rest);
        assert(frames(m.take(0)) =~= Seq::<u8>::empty()) by {
            assert(m.take(0).map_values(|c: (ChunkType, Seq<u8>)| chunk_bytes(c.0, c.1)) =~= Seq::<Seq<u8>>::empty());
        }
        let f = chunk_bytes(t, p);
        lemma_chunk_len(t, p);
        assert(frames(m) =~= f + frames(rest));
        assert(s =~= pre + f + (frames(rest) + good + post));
        assert(s2 =~= pre + f + (frames(rest) + bad + post));
        lemma_chunk_at_frame(pre, t, p, frames(rest) + good + post);
        lemma_chunk_at_frame(pre, t, p, frames(rest) + bad + post);
        let next = pos + 12 + p.len();
        assert(s =~= (pre + f) + frames(rest) + good + post);
        assert(s2 =~= (pre + f) + frames(rest) + bad + post);
        assert forall|i: int| 0 <= i < rest.len() implies (#[trigger] rest[i]).1.len() <= u32::MAX by {
            assert(rest[i] == m[i + 1]);
        }
        assert forall|i: int| 0 <= i < rest.len() implies !((#[trigger] rest[i]).0 is IEND) by {
            assert(rest[i] == m[i + 1]);
        }
        assert(pre.len() + f.len() + frames(rest).len() == pos + frames(m).len());
        reveal(scan_chunks);
        if t is IDAT {
            lemma_scan_reaches_bad_crc(s, s2, pre + f, rest, bad, good, post, ct, palette, trns, acc + p, true);
        } else if seen {
        } else if t is PLTE {
            lemma_scan_reaches_bad_crc(s, s2, pre + f, rest, bad, good, post, ct, p, trns, acc, seen);
        } else if t is tRNS {
            if crate::decoding::trns_error(ct, p) is None {
                lemma_scan_reaches_bad_crc(s, s2, pre + f, rest, bad, good, post, ct, palette, Some(p), acc, seen);
            }
        } else {
            lemma_scan_reaches_bad_crc(s, s2, pre + f, rest, bad, good, post, ct, palette, trns, acc, seen);
        }
    }
}

/// Changing one byte of the CRC field of any chunk of a PNG stream that
/// decodes, and in which IEND comes only last, makes decoding fail with
/// `InvalidCrc`. The stream is the signature followed by the chunks of `l`.
#[verifier::spinoff_prover]
#[verifier::rlimit(100)]
pub proof fn lemma_valid_stream_corrupted_crc(l: Seq<(ChunkType, Seq<u8>)>, j: int, k: int, v: u8)
    requires
        forall|i: int| 0 <= i < l.len() ==> (#[trigger] l[i]).1.len() <= u32::MAX,
        forall|i: int| 0 <= i < l.len() - 1 ==> !((#[trigger] l[i]).0 is IEND),
        decode_spec(png_signature() + frames(l)) is Ok,
        0 <= j < l.len(),
        0 <= k < 4,
        v != (png_signature() + frames(l))[crc_field_at(l, j) + k],
    ensures
        decode_spec((png_signature() + frames(l)).update(crc_field_at(l, j) + k, v)) == Err::<
            (Header, crate::image::ImageType, Seq<u8>),
            crate::decoding::Error,
        >(crate::decoding::Error::InvalidCrc),
{
    let sig = png_signature();
    let s = sig + frames(l);
    let (t, p) = l[j];
    let good = chunk_bytes(t, p);
    lemma_chunk_len(t, p);
    let bad = good.update(8 + p.len() + k, v);
    let before = frames(l.take(j));
    let after = frames(l.skip(j + 1));
    lemma_frames_split(l, j);
    let s2 = s.update(crc_field_at(l, j) + k, v);
    assert(s =~= sig + before + good + after);
    assert(s2 =~= sig + before + bad + after);
    assert(v != good[8 + p.len() + k]);
    lemma_corrupted_crc(sig + before, t, p, after, k, v);
    if j == 0 {
        assert(before =~= Seq::<u8>::empty()) by {
            assert(l.take(0).map_values(|c: (ChunkType, Seq<u8>)| chunk_bytes(c.0, c.1)) =~= Seq::<Seq<u8>>::empty());
        }
        assert(s2 =~= sig + bad + after);
        assert(s2.take(8) =~= sig);
    } else {
        let (t0, p0) = l[0];
        let first = chunk_bytes(t0, p0);
        lemma_chunk_len(t0, p0);
        let m = l.take(j).skip(1);
        lemma_frames_split(l.take(j), 0);
        assert(l.take(j).take(0) =~= Seq::<(ChunkType, Seq<u8>)>::empty());
        assert(frames(l.take(j).take(0)) =~= Seq::<u8>::empty()) by {
            assert(l.take(j).take(0).map_values(|c: (ChunkType, Seq<u8>)| chunk_bytes(c.0, c.1)) =~= Seq::<Seq<u8>>::empty());
        }
        assert(before =~= first + frames(m));
        assert(s =~= sig + first + (frames(m) + good + after));
        assert(s2 =~= sig + first + (frames(m) + bad + after));
        lemma_chunk_at_frame(sig, t0, p0, frames(m) + good + after);
        lemma_chunk_at_frame(sig, t0, p0, frames(m) + bad + after);
        assert(s.take(8) =~= sig);
        assert(s2.take(8) =~= sig);
        assert(stream_header(s2) == stream_header(s));
        let hd = stream_header(s)->Ok_0.0;
        let pre = sig + first;
        assert(s =~= pre + frames(m) + good + after);
        assert(s2 =~= pre + frames(m) + bad + after);
        assert forall|i: int| 0 <= i < m.len() implies (#[trigger] m[i]).1.len() <= u32::MAX by {
            assert(m[i] == l[i + 1]);
        }
        assert forall|i: int| 0 <= i < m.len() implies !((#[trigger] m[i]).0 is IEND) by {
            assert(m[i] == l[i + 1]);
        }
        lemma_scan_reaches_bad_crc(s, s2, pre, m, bad, good, after, hd.color_type, Seq::empty(), None, Seq::empty(), false);
    }
}
/// What the chunks of `m`, read in order, leave: the last palette, the last
/// tRNS payload and the IDAT payloads one after another.
pub open spec fn collected(
    m: Seq<(ChunkType, Seq<u8>)>,
    palette: Seq<u8>,
    trns: Option<Seq<u8>>,
    idat: Seq<u8>,
) -> (Seq<u8>, Option<Seq<u8>>, Seq<u8>)
    decreases m.len(),
{
    if m.len() == 0 {
        (palette, trns, idat)
    } else {
        let c = m[0];
        let r = m.drop_first();
        if c.0 is IDAT {
            collected(r, palette, trns, idat + c.1)
        } else if c.0 is PLTE {
            collected(r, c.1, trns, idat)
        } else if c.0 is tRNS {
            collected(r, palette, Some(c.1), idat)
        } else {
            collected(r, palette, trns, idat)
        }
    }
}

/// The chunks between IHDR and IEND of a valid stream: no IEND among them,
/// IDAT chunks consecutive (nothing but IDAT after the first one), and every
/// tRNS payload fit for the color type.
pub open spec fn valid_middle(m: Seq<(ChunkType, Seq<u8>)>, ct: ColorType) -> bool {
    &&& forall|i: int| 0 <= i < m.len() ==> (#[trigger] m[i]).1.len() <= u32::MAX
    &&& forall|i: int| 0 <= i < m.len() ==> !((#[trigger] m[i]).0 is IEND)
    &&& forall|i: int, j: int|
        0 <= i < j < m.len() && (#[trigger] m[i]).0 is IDAT ==> (#[trigger] m[j]).0 is IDAT
    &&& forall|i: int|
        0 <= i < m.len() && (#[trigger] m[i]).0 is tRNS ==> crate::decoding::trns_error(ct, m[i].1) is None
}

/// A valid PNG stream, as the chunks that follow the signature: IHDR first with
/// a valid header, IEND last, valid chunks between, and IDAT data that inflates
/// to at least `height` scanlines whose filter bytes are 0 to 4 (and, for an
/// indexed image, whose pixels name palette entries).
pub open spec fn valid_png(l: Seq<(ChunkType, Seq<u8>)>) -> bool {
    let hd = header_of(l[0].1)->Ok_0;
    let m = l.subrange(1, l.len() - 1);
    let (palette, _trns, idat) = collected(m, Seq::empty(), None, Seq::empty());
    let z = zlib_decompressed(idat)->0;
    let rl = row_bytes(hd);
    let bpp = bpp_of(hd.color_type, hd.bit_depth);
    &&& l.len() >= 2
    &&& l[0].0 is IHDR
    &&& header_of(l[0].1) is Ok
    &&& l.last().0 is IEND
    &&& l.last().1.len() <= u32::MAX
    &&& valid_middle(m, hd.color_type)
    &&& zlib_decompressed(idat) is Some
    &&& z.len() >= hd.height * (rl + 1)
    &&& forall|y: int| 0 <= y < hd.height ==> #[trigger] z[y * (rl + 1)] <= 4
    &&& forall|y: int|
        0 <= y < hd.height ==> #[trigger] row_in_palette(
            hd,
            palette,
            unfiltered_rows(z, rl, bpp, hd.height as nat)->Ok_0[y],
        )
}

/// Scanning valid chunks up to IEND collects what `collected` says.
#[verifier::spinoff_prover]
#[verifier::rlimit(100)]
proof fn lemma_scan_valid(
    s: Seq<u8>,
    pre: Seq<u8>,
    m: Seq<(ChunkType, Seq<u8>)>,
    post: Seq<u8>,
    e: Seq<u8>,
    ct: ColorType,
    palette: Seq<u8>,
    trns: Option<Seq<u8>>,
    acc: Seq<u8>,
    seen: bool,
)
    requires
        s == pre + frames(m) + chunk_bytes(ChunkType::IEND, e) + post,
        e.len() <= u32::MAX,
        valid_middle(m, ct),
        seen ==> forall|i: int| 0 <= i < m.len() ==> (#[trigger] m[i]).0 is IDAT,
    ensures
        scan_chunks(s, pre.len() as int, ct, palette, trns, acc, seen) == Ok::<
            (Seq<u8>, Option<Seq<u8>>, Seq<u8>),
            crate::decoding::Error,
        >(collected(m, palette, trns, acc)),
    decreases m.len(),
{
    let pos = pre.len() as int;
    let end = chunk_bytes(ChunkType::IEND, e);
    if m.len() == 0 {
        assert(frames(m) =~= Seq::<u8>::empty()) by {
            assert(m.map_values(|c: (ChunkType, Seq<u8>)| chunk_bytes(c.0, c.1)) =~= Seq::<Seq<u8>>::empty());
        }
        assert(s =~= pre + end + post);
        lemma_chunk_at_frame(pre, ChunkType::IEND, e, post);
        lemma_scan_step(s, pos, ChunkType::IEND, e, pos + 12 + e.len(), ct, palette, trns, acc, seen);
    } else {
        let (t, p) = m[0];
        let rest = m.drop_first();
        lemma_frames_split(m, 0);
        assert(m.take(0) =~= Seq::<(ChunkType, Seq<u8>)>::empty());
        assert(m.skip(1) =~= rest);
        assert(frames(m.take(0)) =~= Seq::<u8>::empty()) by {
            assert(m.take(0).map_values(|c: (ChunkType, Seq<u8>)| chunk_bytes(c.0, c.1)) =~= Seq::<Seq<u8>>::empty());
        }
        let f = chunk_bytes(t, p);
        lemma_chunk_len(t, p);
        assert(frames(m) =~= f + frames(rest));
        assert(s =~= pre + f + (frames(rest) + end + post));
        lemma_chunk_at_frame(pre, t, p, frames(rest) + end + post);
        assert(s =~= (pre + f) + frames(rest) + end + post);
        assert(valid_middle(rest, ct)) by {
            assert forall|i: int| 0 <= i < rest.len() implies rest[i] == m[i + 1] by {}
            assert forall|i: int, j: int|
                0 <= i < j < rest.len() && (#[trigger] rest[i]).0 is IDAT implies (#[trigger] rest[j]).0 is IDAT by {
                assert(rest[i] == m[i + 1] && rest[j] == m[j + 1]);
            }
        }
        assert(!(t is IEND)) by {
            assert(m[0].0 == t);
        }
        reveal(scan_chunks);
        if t is IDAT {
            assert forall|i: int| 0 <= i < rest.len() implies (#[trigger] rest[i]).0 is IDAT by {
                assert(rest[i] == m[i + 1]);
                assert(m[0].0 is IDAT);
            }
            lemma_scan_valid(s, pre + f, rest, post, e, ct, palette, trns, acc + p, true);
        } else {
            assert(!seen) by {
                if seen {
                    assert(m[0].0 is IDAT);
                }
            }
            assert forall|i: int| 0 <= i < rest.len() implies !((#[trigger] rest[i]).0 is IEND) by {
                assert(rest[i] == m[i + 1]);
            }
            if t is PLTE {
                lemma_scan_valid(s, pre + f, rest, post, e, ct, p, trns, acc, seen);
            } else if t is tRNS {
                assert(m[0].0 is tRNS);
                lemma_scan_valid(s, pre + f, rest, post, e, ct, palette, Some(p), acc, seen);
            } else {
                lemma_scan_valid(s, pre + f, rest, post, e, ct, palette, trns, acc, seen);
            }
        }
    }
}

/// Scanlines whose filter bytes are all 0 to 4 are reconstructed without error.
proof fn lemma_unfiltered_rows_ok(z: Seq<u8>, rl: nat, bpp: nat, n: nat)
    requires
        forall|y: int| 0 <= y < n ==> #[trigger] z[y * (rl + 1)] <= 4,
    ensures
        unfiltered_rows(z, rl, bpp, n) is Ok,
    decreases n,
{
    if n > 0 {
        lemma_unfiltered_rows_ok(z, rl, bpp, (n - 1) as nat);
        assert(z[(n - 1) * (rl + 1)] <= 4);
    }
}
/// Every valid PNG stream decodes, to an image with the header that IHDR gives
/// whose buffer holds `width * height` pixels of its format.
#[verifier::spinoff_prover]
#[verifier::rlimit(100)]
pub proof fn lemma_valid_png_decodes(l: Seq<(ChunkType, Seq<u8>)>)
    requires
        valid_png(l),
    ensures
        decode_spec(png_signature() + frames(l)) is Ok,
        ({
            let (hd, t, d) = decode_spec(png_signature() + frames(l))->Ok_0;
            &&& hd == header_of(l[0].1)->Ok_0
            &&& d.len() == (hd.width as nat) * (hd.height as nat) * bytes_per_pixel(t)
        }),
{
    reveal(header_of);
    let sig = png_signature();
    let s = sig + frames(l);
    let n = l.len() as int;
    let (t0, p0) = l[0];
    let (te, pe) = l[n - 1];
    let hd = header_of(p0)->Ok_0;
    let ct = hd.color_type;
    let m = l.subrange(1, n - 1);
    let f0 = chunk_bytes(t0, p0);
    let fe = chunk_bytes(ChunkType::IEND, pe);
    lemma_chunk_len(t0, p0);
    // frames(l) = f0 + frames(m) + fe
    lemma_frames_split(l, 0);
    assert(l.take(0) =~= Seq::<(ChunkType, Seq<u8>)>::empty());
    assert(frames(l.take(0)) =~= Seq::<u8>::empty()) by {
        assert(l.take(0).map_values(|c: (ChunkType, Seq<u8>)| chunk_bytes(c.0, c.1)) =~= Seq::<Seq<u8>>::empty());
    }
    let tail = l.skip(1);
    lemma_frames_split(tail, n - 2);
    assert(tail.take(n - 2) =~= m);
    assert(tail.skip(n - 1) =~= Seq::<(ChunkType, Seq<u8>)>::empty());
    assert(frames(tail.skip(n - 1)) =~= Seq::<u8>::empty()) by {
        assert(tail.skip(n - 1).map_values(|c: (ChunkType, Seq<u8>)| chunk_bytes(c.0, c.1)) =~= Seq::<Seq<u8>>::empty());
    }
    assert(tail[n - 2] == l[n - 1]);
    assert(frames(l) =~= f0 + frames(m) + fe);
    // the header
    assert(s =~= sig + f0 + (frames(m) + fe));
    lemma_chunk_at_frame(sig, t0, p0, frames(m) + fe);
    assert(s.take(8) =~= sig);
    assert(p0.len() == 13);
    assert(stream_header(s) == Ok::<(Header, int), crate::decoding::Error>((hd, 33)));
    // the chunks up to IEND
    assert(s =~= (sig + f0) + frames(m) + fe + Seq::empty());
    lemma_scan_valid(s, sig + f0, m, Seq::empty(), pe, ct, Seq::empty(), None, Seq::empty(), false);
    let (palette, trns, idat) = collected(m, Seq::empty(), None, Seq::empty());
    let z = zlib_decompressed(idat)->0;
    let rl = row_bytes(hd);
    let bpp = bpp_of(ct, hd.bit_depth);
    let h = hd.height as nat;
    lemma_unfiltered_rows_ok(z, rl, bpp, h);
    let rows = unfiltered_rows(z, rl, bpp, h)->Ok_0;
    assert(!(exists|y: int| 0 <= y < hd.height && !#[trigger] row_in_palette(hd, palette, rows[y])));
    // the length of the pixel data
    lemma_unfiltered_rows_shape(z, rl, bpp, h);
    let tr = trns_spec(ct, trns);
    lemma_trns_spec_fits(ct, trns);
    let k = bytes_per_pixel(out_type(hd, !(tr is Absent)));
    let w = hd.width as nat;
    let outs = rows.map_values(|r: Seq<u8>| row_out(hd, palette, tr, r));
    assert forall|i: int| 0 <= i < outs.len() implies (#[trigger] outs[i]).len() == w * k by {
        lemma_row_out_len(hd, palette, tr, rows[i]);
    }
    lemma_concat_len(outs, w * k);
    assert(h * (w * k) == w * h * k) by (nonlinear_arith);
}
} // verus!
