//! Turning reconstructed scanlines into the canonical pixel layout: unpacking
//! samples below 8 bits, palette lookup, the tRNS overlay, and 16-bit samples
//! stored low byte first.
use crate::bytes::{be_u16, concat, lemma_concat_len, lemma_concat_push};
use crate::decoding::Header;
use crate::helpers::{channels, entry, has_entry, trns_alpha, valid_bit_depth, ColorType, Pallete, TrnsPallete};
use crate::image::{bytes_per_pixel, ImageType};
use vstd::prelude::*;
use vstd::slice::slice_to_vec;

verus! {

/// The bytes of `s` with each pair swapped: 16-bit samples between high byte
/// first (as the stream holds them) and low byte first (as an image holds them).
pub open spec fn swap16(s: Seq<u8>) -> Seq<u8> {
    Seq::new(s.len(), |i: int| if i % 2 == 0 { s[i + 1] } else { s[i - 1] })
}

/// Sample `x` of a scanline of `d`-bit samples (`d` below 8), packed most significant first.
pub open spec fn packed_sample(row: Seq<u8>, d: u8, x: int) -> u8 {
    let ppb = 8int / (d as int);
    let k = x % ppb;
    (row[x / ppb] >> ((8 - (d as int) * (k + 1)) as u8)) & ((1u8 << d) - 1) as u8
}

/// The 8-bit gray value of pixel `x` of a grayscale scanline.
pub open spec fn gray_value(row: Seq<u8>, d: u8, x: int) -> u8 {
    if d == 8 {
        row[x]
    } else {
        (packed_sample(row, d, x) * (255u8 / (((1u8 << d) - 1) as u8))) as u8
    }
}

/// The palette index of pixel `x` of an indexed scanline (1-bit indices are
/// read inverted).
pub open spec fn palette_index(row: Seq<u8>, d: u8, x: int) -> u8 {
    if d == 8 {
        row[x]
    } else if d == 1 {
        packed_sample(row, d, x) ^ 1
    } else {
        packed_sample(row, d, x)
    }
}

/// Alpha for a color-keyed pixel: transparent where it matches the key.
pub open spec fn key_alpha(matches: bool) -> u8 {
    if matches {
        0
    } else {
        255
    }
}

/// Transparency information, as a tRNS chunk gives it for each color type.
pub enum TrnsSpec {
    /// No tRNS chunk.
    Absent,
    /// The gray value that is transparent.
    Greyscale(u16),
    /// The red, green and blue values that are transparent.
    Truecolor(u16, u16, u16),
    /// Alpha of each palette entry.
    Indexed(Seq<u8>),
}

/// What the tRNS payload `p` (if any) means under color type `ct`.
pub open spec fn trns_spec(ct: ColorType, p: Option<Seq<u8>>) -> TrnsSpec {
    match p {
        None => TrnsSpec::Absent,
        Some(t) => match ct {
            ColorType::Greyscale => TrnsSpec::Greyscale(be_u16(t[0], t[1])),
            ColorType::Truecolor => TrnsSpec::Truecolor(
                be_u16(t[0], t[1]),
                be_u16(t[2], t[3]),
                be_u16(t[4], t[5]),
            ),
            ColorType::IndexedColor => TrnsSpec::Indexed(t),
            _ => TrnsSpec::Absent,
        },
    }
}

/// Whether the scanlines of this header pass through unchanged (but for the
/// byte order of 16-bit samples): no sub-byte unpacking, palette or tRNS.
pub open spec fn is_direct(hd: Header, trns: TrnsSpec) -> bool {
    hd.bit_depth >= 8 && (hd.color_type is GreyscaleAlpha || hd.color_type is TruecolorAlpha || (
    trns is Absent && (hd.color_type is Greyscale || hd.color_type is Truecolor)))
}

/// The output bytes of pixel `x` of scanline `row`, for a header that is not direct.
pub open spec fn pixel_out(hd: Header, palette: Seq<u8>, trns: TrnsSpec, row: Seq<u8>, x: int) -> Seq<u8> {
    match hd.color_type {
        ColorType::IndexedColor => {
            let i = palette_index(row, hd.bit_depth, x);
            match trns {
                TrnsSpec::Indexed(t) => entry(palette, i) + seq![trns_alpha(t, i)],
                _ => entry(palette, i),
            }
        },
        ColorType::Greyscale => if hd.bit_depth == 16 {
            let hi = row[2 * x];
            let lo = row[2 * x + 1];
            let a = key_alpha(be_u16(hi, lo) == trns->Greyscale_0);
            seq![lo, hi, a, a]
        } else {
            let g = gray_value(row, hd.bit_depth, x);
            match trns {
                TrnsSpec::Greyscale(k) => seq![g, key_alpha(g as u16 == k)],
                _ => seq![g],
            }
        },
        _ => {
            if hd.bit_depth == 16 {
                let a = key_alpha(
                    be_u16(row[6 * x], row[6 * x + 1]) == trns->Truecolor_0 && be_u16(
                        row[6 * x + 2],
                        row[6 * x + 3],
                    ) == trns->Truecolor_1 && be_u16(row[6 * x + 4], row[6 * x + 5])
                        == trns->Truecolor_2,
                );
                seq![
                    row[6 * x + 1],
                    row[6 * x],
                    row[6 * x + 3],
                    row[6 * x + 2],
                    row[6 * x + 5],
                    row[6 * x + 4],
                    a,
                    a,
                ]
            } else {
                let r = row[3 * x];
                let g = row[3 * x + 1];
                let b = row[3 * x + 2];
                let a = key_alpha(
                    r as u16 == trns->Truecolor_0 && g as u16 == trns->Truecolor_1 && b as u16
                        == trns->Truecolor_2,
                );
                seq![r, g, b, a]
            }
        },
    }
}

/// The first `n` output pixels of scanline `row`, one after another.
pub open spec fn pixels_out(hd: Header, palette: Seq<u8>, trns: TrnsSpec, row: Seq<u8>, n: int) -> Seq<u8> {
    concat(Seq::new(n as nat, |x: int| pixel_out(hd, palette, trns, row, x)))
}

/// The output bytes of a whole reconstructed scanline.
pub open spec fn row_out(hd: Header, palette: Seq<u8>, trns: TrnsSpec, row: Seq<u8>) -> Seq<u8> {
    if is_direct(hd, trns) {
        if hd.bit_depth == 16 {
            swap16(row)
        } else {
            row
        }
    } else {
        pixels_out(hd, palette, trns, row, hd.width as int)
    }
}

/// Whether every pixel of an indexed scanline names an entry of the palette.
pub open spec fn row_in_palette(hd: Header, palette: Seq<u8>, row: Seq<u8>) -> bool {
    hd.color_type is IndexedColor ==> forall|x: int|
        0 <= x < hd.width ==> #[trigger] has_entry(palette, palette_index(row, hd.bit_depth, x))
}

/// The image format that decoding produces.
pub open spec fn out_type(hd: Header, has_trns: bool) -> ImageType {
    match hd.color_type {
        ColorType::Greyscale => if hd.bit_depth == 16 {
            if has_trns { ImageType::Ra16 } else { ImageType::R16 }
        } else {
            if has_trns { ImageType::Ra8 } else { ImageType::R8 }
        },
        ColorType::Truecolor => if hd.bit_depth == 16 {
            if has_trns { ImageType::Rgba16 } else { ImageType::Rgb16 }
        } else {
            if has_trns { ImageType::Rgba8 } else { ImageType::Rgb8 }
        },
        ColorType::IndexedColor => if has_trns { ImageType::Rgba8 } else { ImageType::Rgb8 },
        ColorType::GreyscaleAlpha => if hd.bit_depth == 16 { ImageType::Ra16 } else { ImageType::Ra8 },
        ColorType::TruecolorAlpha => if hd.bit_depth == 16 {
            ImageType::Rgba16
        } else {
            ImageType::Rgba8
        },
    }
}

/// Bytes in one reconstructed scanline (its filter byte not counted).
pub open spec fn row_bytes(hd: Header) -> nat {
    ((hd.bit_depth as nat) * channels(hd.color_type) * (hd.width as nat) + 7) / 8
}

///Transparency information of a decoded image
pub enum TransparencyData {
    ///No tRNS chunk
    Absent,
    ///The gray value that is transparent
    Greyscale(u16),
    ///The red, green and blue values that are transparent
    Truecolor(u16, u16, u16),
    ///Alpha of each palette entry
    Indexed(TrnsPallete),
}

impl View for TransparencyData {
    type V = TrnsSpec;

    open spec fn view(&self) -> TrnsSpec {
        match self {
            TransparencyData::Absent => TrnsSpec::Absent,
            TransparencyData::Greyscale(k) => TrnsSpec::Greyscale(*k),
            TransparencyData::Truecolor(r, g, b) => TrnsSpec::Truecolor(*r, *g, *b),
            TransparencyData::Indexed(t) => TrnsSpec::Indexed(t@),
        }
    }
}

/// The big-endian 16-bit value at `p[i]`, `p[i + 1]`.
fn read_be_u16(p: &[u8], i: usize) -> (r: u16)
    requires
        i + 1 < p@.len(),
    ensures
        r == be_u16(p@[i as int], p@[i + 1]),
{
    ((p[i] as u16) << 8) | (p[i + 1] as u16)
}

///Interprets a tRNS payload under color type `ct`
pub fn transparency(ct: ColorType, payload: Option<Vec<u8>>) -> (r: TransparencyData)
    requires
        payload matches Some(p) ==> (ct is Greyscale ==> p@.len() >= 2) && (ct is Truecolor
            ==> p@.len() >= 6),
    ensures
        r@ == trns_spec(
            ct,
            match payload {
                Some(p) => Some(p@),
                None => None,
            },
        ),
{
    match payload {
        None => TransparencyData::Absent,
        Some(p) => match ct {
            ColorType::Greyscale => TransparencyData::Greyscale(read_be_u16(p.as_slice(), 0)),
            ColorType::Truecolor => TransparencyData::Truecolor(
                read_be_u16(p.as_slice(), 0),
                read_be_u16(p.as_slice(), 2),
                read_be_u16(p.as_slice(), 4),
            ),
            ColorType::IndexedColor => TransparencyData::Indexed(TrnsPallete::new(p)),
            _ => TransparencyData::Absent,
        },
    }
}

/// Where sample `x` of a `d`-bit scanline of `w` samples lies.
proof fn lemma_packed_bounds(d: u8, w: int, x: int)
    requires
        d == 1 || d == 2 || d == 4,
        0 <= x < w,
    ensures
        0 <= x / (8int / (d as int)) < ((d as int) * w + 7) / 8,
        (d as int) * (x % (8int / (d as int)) + 1) <= 8,
        0 <= x % (8int / (d as int)),
{
    if d == 1 {
        assert(x / 8 < (w + 7) / 8);
    } else if d == 2 {
        assert(x / 4 < (2 * w + 7) / 8);
    } else {
        assert(x / 2 < (4 * w + 7) / 8);
    }
}

///Sample `x` of a scanline of `d`-bit samples, packed most significant first
fn packed_sample_exec(row: &[u8], d: u8, x: usize) -> (r: u8)
    requires
        d == 1 || d == 2 || d == 4,
        (x as int) / (8int / (d as int)) < row@.len(),
        (d as int) * ((x as int) % (8int / (d as int)) + 1) <= 8,
    ensures
        r == packed_sample(row@, d, x as int),
        r <= (1u8 << d) - 1,
{
    let ppb = (8 / d) as usize;
    let k = x % ppb;
    let shift = (8 - d as usize * (k + 1)) as u8;
    assert(1u8 << d >= 2) by (bit_vector)
        requires
            d == 1 || d == 2 || d == 4,
    ;
    let mask: u8 = (1u8 << d) - 1;
    let byte = row[x / ppb];
    let r = (byte >> shift) & mask;
    assert(r <= mask) by (bit_vector)
        requires
            r == (byte >> shift) & mask,
    ;
    r
}
/// For depths of 8 and 16 a scanline holds whole samples.
pub proof fn lemma_row_bytes_wide(hd: Header)
    requires
        hd.bit_depth == 8 || hd.bit_depth == 16,
    ensures
        hd.bit_depth == 8 ==> row_bytes(hd) == channels(hd.color_type) * (hd.width as nat),
        hd.bit_depth == 16 ==> row_bytes(hd) == 2 * channels(hd.color_type) * (hd.width as nat),
{
    let c = channels(hd.color_type) as int;
    let w = hd.width as int;
    if hd.bit_depth == 8 {
        assert(8 * c * w + 7 == 8 * (c * w) + 7) by (nonlinear_arith);
        vstd::arithmetic::div_mod::lemma_div_multiples_vanish_fancy(c * w, 7, 8);
    } else {
        assert(16 * c * w + 7 == 8 * (2 * c * w) + 7) by (nonlinear_arith);
        vstd::arithmetic::div_mod::lemma_div_multiples_vanish_fancy(2 * c * w, 7, 8);
    }
}

/// Whether the transparency information belongs to color type `ct`.
pub open spec fn trns_fits(ct: ColorType, t: TrnsSpec) -> bool {
    match t {
        TrnsSpec::Absent => true,
        TrnsSpec::Greyscale(_) => ct is Greyscale,
        TrnsSpec::Truecolor(_, _, _) => ct is Truecolor,
        TrnsSpec::Indexed(_) => ct is IndexedColor,
    }
}

/// What `trns_spec` gives fits its color type.
pub proof fn lemma_trns_spec_fits(ct: ColorType, p: Option<Seq<u8>>)
    ensures
        trns_fits(ct, trns_spec(ct, p)),
{
}

/// Appends the output bytes of pixel `x` of a scanline that is not direct.
fn push_pixel(
    out: &mut Vec<u8>,
    hd: Header,
    palette: &Pallete,
    td: &TransparencyData,
    row: &[u8],
    x: usize,
)
    requires
        valid_bit_depth(hd.color_type, hd.bit_depth),
        row@.len() == row_bytes(hd),
        x < hd.width,
        !is_direct(hd, td@),
        trns_fits(hd.color_type, td@),
        hd.color_type is IndexedColor ==> has_entry(
            palette@,
            palette_index(row@, hd.bit_depth, x as int),
        ),
    ensures
        final(out)@ == old(out)@ + pixel_out(hd, palette@, td@, row@, x as int),
{
    let ghost before = out@;
    let d = hd.bit_depth;
    proof {
        if d == 1 || d == 2 || d == 4 {
            lemma_packed_bounds(d, hd.width as int, x as int);
        } else {
            lemma_row_bytes_wide(hd);
            let w = hd.width as nat;
            if hd.color_type is IndexedColor || hd.color_type is Greyscale {
                assert(channels(hd.color_type) == 1);
                if d == 8 {
                    assert(row@.len() == w);
                } else {
                    assert(row@.len() == 2 * w);
                }
            } else if hd.color_type is Truecolor {
                if d == 8 {
                    assert(row@.len() == 3 * w);
                } else {
                    assert(row@.len() == 6 * w);
                }
            }
        }
    }
    let _len = row.len();
    match hd.color_type {
        ColorType::IndexedColor => {
            let i = if d == 8 {
                row[x]
            } else if d == 1 {
                packed_sample_exec(row, d, x) ^ 1
            } else {
                packed_sample_exec(row, d, x)
            };
            let c = palette.get(i);
            out.push(c[0]);
            out.push(c[1]);
            out.push(c[2]);
            if let TransparencyData::Indexed(t) = td {
                out.push(t.get(i));
            }
            proof {
                assert(out@ =~= before + pixel_out(hd, palette@, td@, row@, x as int));
            }
        },
        ColorType::Greyscale => {
            if d == 16 {
                let hi = row[2 * x];
                let lo = row[2 * x + 1];
                let key = match td {
                    TransparencyData::Greyscale(k) => *k,
                    _ => 0,
                };
                let a: u8 = if (((hi as u16) << 8) | (lo as u16)) == key { 0 } else { 255 };
                out.push(lo);
                out.push(hi);
                out.push(a);
                out.push(a);
            } else {
                let g: u8 = if d == 8 {
                    row[x]
                } else {
                    let v = packed_sample_exec(row, d, x);
                    assert(1u8 << d >= 2) by (bit_vector)
                        requires
                            d == 1 || d == 2 || d == 4,
                    ;
                    let mask: u8 = (1u8 << d) - 1;
                    let f: u16 = (255 / mask) as u16;
                    assert(v as u16 * f <= 65025) by (nonlinear_arith)
                        requires
                            v <= 255,
                            f <= 255,
                    ;
                    (#[verifier::truncate] ((v as u16 * f) as u8))
                };
                out.push(g);
                if let TransparencyData::Greyscale(k) = td {
                    out.push(if g as u16 == *k { 0 } else { 255 });
                }
            }
            proof {
                assert(out@ =~= before + pixel_out(hd, palette@, td@, row@, x as int));
            }
        },
        _ => {
            let (kr, kg, kb) = match td {
                TransparencyData::Truecolor(r, g, b) => (*r, *g, *b),
                _ => (0, 0, 0),
            };
            if d == 16 {
                let i = 6 * x;
                let m = read_be_u16(row, i) == kr && read_be_u16(row, i + 2) == kg
                    && read_be_u16(row, i + 4) == kb;
                let a: u8 = if m { 0 } else { 255 };
                out.push(row[i + 1]);
                out.push(row[i]);
                out.push(row[i + 3]);
                out.push(row[i + 2]);
                out.push(row[i + 5]);
                out.push(row[i + 4]);
                out.push(a);
                out.push(a);
            } else {
                let i = 3 * x;
                let m = row[i] as u16 == kr && row[i + 1] as u16 == kg && row[i + 2] as u16 == kb;
                out.push(row[i]);
                out.push(row[i + 1]);
                out.push(row[i + 2]);
                out.push(if m { 0 } else { 255 });
            }
            proof {
                assert(out@ =~= before + pixel_out(hd, palette@, td@, row@, x as int));
            }
        },
    }
}
///Palette index of pixel `x` of an indexed scanline
fn palette_index_exec(row: &[u8], d: u8, x: usize, width: u32) -> (r: u8)
    requires
        d == 1 || d == 2 || d == 4 || d == 8,
        row@.len() == ((d as int) * (width as int) + 7) / 8,
        x < width,
    ensures
        r == palette_index(row@, d, x as int),
{
    if d == 8 {
        assert(((d as int) * (width as int) + 7) / 8 == width);
        row[x]
    } else {
        proof {
            lemma_packed_bounds(d, width as int, x as int);
        }
        if d == 1 {
            packed_sample_exec(row, d, x) ^ 1
        } else {
            packed_sample_exec(row, d, x)
        }
    }
}

///The bytes of `s` with each pair swapped
pub fn swapped_pairs(s: &[u8]) -> (r: Vec<u8>)
    requires
        s@.len() % 2 == 0,
    ensures
        r@ == swap16(s@),
{
    let mut out: Vec<u8> = Vec::new();
    let mut i: usize = 0;
    while i < s.len()
        invariant
            s@.len() % 2 == 0,
            0 <= i <= s@.len(),
            i % 2 == 0,
            out@ == swap16(s@).take(i as int),
        decreases s@.len() - i,
    {
        out.push(s[i + 1]);
        out.push(s[i]);
        assert(out@ =~= swap16(s@).take(i + 2));
        i = i + 2;
    }
    assert(out@ =~= swap16(s@));
    out
}

///Turns one reconstructed scanline into output pixels; `None` if an indexed
///pixel names no palette entry
pub fn convert_row(hd: Header, palette: &Pallete, td: &TransparencyData, row: &[u8]) -> (r: Option<Vec<u8>>)
    requires
        valid_bit_depth(hd.color_type, hd.bit_depth),
        row@.len() == row_bytes(hd),
        trns_fits(hd.color_type, td@),
    ensures
        r is None <==> !row_in_palette(hd, palette@, row@),
        r matches Some(v) ==> v@ == row_out(hd, palette@, td@, row@),
{
    if hd.bit_depth >= 8 {
        let direct = match hd.color_type {
            ColorType::GreyscaleAlpha | ColorType::TruecolorAlpha => true,
            ColorType::Greyscale | ColorType::Truecolor => match td {
                TransparencyData::Absent => true,
                _ => false,
            },
            _ => false,
        };
        if direct {
            proof {
                lemma_row_bytes_wide(hd);
            }
            if hd.bit_depth == 16 {
                assert(row@.len() % 2 == 0) by {
                    let k = channels(hd.color_type) * (hd.width as nat);
                    assert(2 * channels(hd.color_type) * (hd.width as nat) == 2 * k) by (nonlinear_arith)
                        requires
                            k == channels(hd.color_type) * (hd.width as nat),
                    ;
                }
                return Some(swapped_pairs(row));
            } else {
                return Some(slice_to_vec(row));
            }
        }
    }
    let mut out: Vec<u8> = Vec::new();
    let mut x: usize = 0;
    let w = hd.width as usize;
    while x < w
        invariant
            w == hd.width,
            0 <= x <= w,
            valid_bit_depth(hd.color_type, hd.bit_depth),
            row@.len() == row_bytes(hd),
            trns_fits(hd.color_type, td@),
            !is_direct(hd, td@),
            out@ == pixels_out(hd, palette@, td@, row@, x as int),
            hd.color_type is IndexedColor ==> forall|y: int|
                0 <= y < x ==> #[trigger] has_entry(palette@, palette_index(row@, hd.bit_depth, y)),
        decreases w - x,
    {
        if let ColorType::IndexedColor = hd.color_type {
            let i = palette_index_exec(row, hd.bit_depth, x, hd.width);
            if !palette.contains(i) {
                return None;
            }
        }
        push_pixel(&mut out, hd, palette, td, row, x);
        proof {
            let f = |y: int| pixel_out(hd, palette@, td@, row@, y);
            assert(Seq::new((x + 1) as nat, f) =~= Seq::new(x as nat, f).push(f(x as int)));
            lemma_concat_push(Seq::new(x as nat, f), f(x as int));
        }
        x = x + 1;
    }
    Some(out)
}
/// Every output scanline holds `width` pixels of the output format.
pub proof fn lemma_row_out_len(hd: Header, palette: Seq<u8>, t: TrnsSpec, row: Seq<u8>)
    requires
        valid_bit_depth(hd.color_type, hd.bit_depth),
        row.len() == row_bytes(hd),
        trns_fits(hd.color_type, t),
        row_in_palette(hd, palette, row),
    ensures
        row_out(hd, palette, t, row).len() == (hd.width as nat) * bytes_per_pixel(out_type(hd, !(t is Absent))),
{
    let k = bytes_per_pixel(out_type(hd, !(t is Absent)));
    let w = hd.width as nat;
    if is_direct(hd, t) {
        lemma_row_bytes_wide(hd);
        let c = channels(hd.color_type);
        if hd.bit_depth == 16 {
            assert(2 * c * w == w * (2 * c)) by (nonlinear_arith);
        } else {
            assert(c * w == w * c) by (nonlinear_arith);
        }
    } else {
        let f = |x: int| pixel_out(hd, palette, t, row, x);
        let px = Seq::new(w, f);
        assert forall|x: int| 0 <= x < px.len() implies (#[trigger] px[x]).len() == k by {
            if hd.color_type is IndexedColor {
                assert(has_entry(palette, palette_index(row, hd.bit_depth, x)));
            }
        }
        lemma_concat_len(px, k);
    }
}
} // verus!
