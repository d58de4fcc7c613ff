//! The in-memory image: a pixel format tag and a tightly packed byte buffer.
use crate::bytes::{concat, groups, lemma_concat_len, lemma_concat_push, lemma_group_bounds};
use vstd::prelude::*;

verus! {

///Image type of a loaded image
#[derive(Debug, Clone, Copy, PartialEq, Eq, Structural)]
pub enum ImageType {
    ///A grayscale image with bit depth of 8
    R8,
    ///A grayscale image with bit depth of 16
    R16,
    ///A grayscale image  with an alpha channel and bit depth of 8
    Ra8,
    ///A grayscale image  with an alpha channel and bit depth of 16
    Ra16,
    ///An rgb image with the bit depth of 8
    Rgb8,
    ///An rgba image with the bit depth of 8
    Rgba8,
    ///An rgb image with the bit depth of 16
    Rgb16,
    ///An rgba image with the bit depth of 16
    Rgba16,
}

/// Number of bytes one pixel of the format occupies.
pub open spec fn bytes_per_pixel(t: ImageType) -> nat {
    match t {
        ImageType::R8 => 1,
        ImageType::R16 => 2,
        ImageType::Ra8 => 2,
        ImageType::Ra16 => 4,
        ImageType::Rgb8 => 3,
        ImageType::Rgba8 => 4,
        ImageType::Rgb16 => 6,
        ImageType::Rgba16 => 8,
    }
}

/// Whether each sample of the format takes two bytes.
pub open spec fn is_16_bit_spec(t: ImageType) -> bool {
    t is R16 || t is Ra16 || t is Rgb16 || t is Rgba16
}

impl ImageType {
    /// Number of bytes one pixel of this format occupies.
    pub fn bytes_per_pixel(&self) -> (r: u32)
        ensures
            r == bytes_per_pixel(*self),
    {
        match self {
            ImageType::R8 => 1,
            ImageType::R16 => 2,
            ImageType::Ra8 => 2,
            ImageType::Ra16 => 4,
            ImageType::Rgb8 => 3,
            ImageType::Rgba8 => 4,
            ImageType::Rgb16 => 6,
            ImageType::Rgba16 => 8,
        }
    }

    /// Whether each sample of this format takes two bytes.
    pub fn is_16_bit(&self) -> (r: bool)
        ensures
            r == is_16_bit_spec(*self),
    {
        match self {
            ImageType::R16 | ImageType::Ra16 | ImageType::Rgb16 | ImageType::Rgba16 => true,
            _ => false,
        }
    }
}

///A loaded png image
#[derive(Debug, PartialEq, Eq)]
pub struct Image {
    ///Width of the image
    pub width: u32,
    ///Height of the image
    pub height: u32,
    ///Type of the image
    pub img_type: ImageType,
    ///Actual data. Data in an image is stored in scanlines, going left to right, top to bottom.
    ///Samples of 16-bit formats are stored low byte first.
    pub data: Vec<u8>,
}

/// The format that `add_alpha` turns `t` into.
pub open spec fn with_alpha_type(t: ImageType) -> ImageType {
    match t {
        ImageType::R8 => ImageType::Ra8,
        ImageType::R16 => ImageType::Ra16,
        ImageType::Rgb8 => ImageType::Rgba8,
        ImageType::Rgb16 => ImageType::Rgba16,
        _ => t,
    }
}

/// Whether the format carries an alpha channel.
pub open spec fn has_alpha(t: ImageType) -> bool {
    t is Ra8 || t is Ra16 || t is Rgba8 || t is Rgba16
}

/// One pixel of format `t` followed by a fully opaque alpha sample.
pub open spec fn opaque_pixel(t: ImageType, px: Seq<u8>) -> Seq<u8> {
    if is_16_bit_spec(t) {
        px + seq![0xffu8, 0xffu8]
    } else {
        px + seq![0xffu8]
    }
}

/// The format that `add_channels` turns `t` into.
pub open spec fn with_channels_type(t: ImageType) -> ImageType {
    match t {
        ImageType::R8 => ImageType::Rgb8,
        ImageType::R16 => ImageType::Rgb16,
        ImageType::Ra8 => ImageType::Rgba8,
        ImageType::Ra16 => ImageType::Rgba16,
        _ => t,
    }
}

/// One grayscale pixel of format `t` with its gray sample repeated as red, green and blue.
pub open spec fn color_pixel(t: ImageType, px: Seq<u8>) -> Seq<u8> {
    let s: nat = if is_16_bit_spec(t) { 2 } else { 1 };
    let gray = px.take(s as int);
    gray + gray + gray + px.skip(s as int)
}

/// The pixels of `d` (format `t`), each with an opaque alpha sample appended.
pub open spec fn opaque_pixels(t: ImageType, d: Seq<u8>) -> Seq<Seq<u8>> {
    groups(d, bytes_per_pixel(t)).map_values(|px: Seq<u8>| opaque_pixel(t, px))
}

/// The pixels of `d` (format `t`), each with its gray sample repeated as red, green and blue.
pub open spec fn color_pixels(t: ImageType, d: Seq<u8>) -> Seq<Seq<u8>> {
    groups(d, bytes_per_pixel(t)).map_values(|px: Seq<u8>| color_pixel(t, px))
}

/// The buffer `d` of format `t` after `add_alpha`.
pub open spec fn alpha_added(t: ImageType, d: Seq<u8>) -> Seq<u8> {
    if has_alpha(t) {
        d
    } else {
        concat(opaque_pixels(t, d))
    }
}

/// The buffer `d` of format `t` after `add_channels`.
pub open spec fn channels_added(t: ImageType, d: Seq<u8>) -> Seq<u8> {
    if with_channels_type(t) == t {
        d
    } else {
        concat(color_pixels(t, d))
    }
}

impl Image {
    /// The buffer holds exactly `width * height` pixels of the format, and neither side is 0.
    pub open spec fn wf(&self) -> bool {
        &&& self.width > 0
        &&& self.height > 0
        &&& self.data@.len() == self.width * self.height * bytes_per_pixel(self.img_type)
    }

    ///Adds an alpha channel to the image, does nothing if the image already contains an alpha channel
    pub fn add_alpha(&mut self)
        requires
            old(self).wf(),
        ensures
            final(self).wf(),
            final(self).width == old(self).width,
            final(self).height == old(self).height,
            final(self).img_type == with_alpha_type(old(self).img_type),
            has_alpha(final(self).img_type),
            final(self).data@ == alpha_added(old(self).img_type, old(self).data@),
    {
        let t = self.img_type;
        match t {
            ImageType::R8 | ImageType::R16 | ImageType::Rgb8 | ImageType::Rgb16 => {
                let d = expand_pixels(&self.data, t, false);
                proof {
                    pixel_count_lemma(self.width as int, self.height as int, bytes_per_pixel(t) as int);
                    pixel_count_lemma(
                        self.width as int,
                        self.height as int,
                        bytes_per_pixel(with_alpha_type(t)) as int,
                    );
                }
                self.data = d;
                self.img_type = match t {
                    ImageType::R8 => ImageType::Ra8,
                    ImageType::R16 => ImageType::Ra16,
                    ImageType::Rgb8 => ImageType::Rgba8,
                    _ => ImageType::Rgba16,
                };
            },
            _ => {},
        }
    }

    ///Adds channels to a grayscale image. Does nothing if the image is not grayscale
    pub fn add_channels(&mut self)
        requires
            old(self).wf(),
        ensures
            final(self).wf(),
            final(self).width == old(self).width,
            final(self).height == old(self).height,
            final(self).img_type == with_channels_type(old(self).img_type),
            final(self).data@ == channels_added(old(self).img_type, old(self).data@),
    {
        let t = self.img_type;
        match t {
            ImageType::R8 | ImageType::R16 | ImageType::Ra8 | ImageType::Ra16 => {
                let d = expand_pixels(&self.data, t, true);
                proof {
                    pixel_count_lemma(self.width as int, self.height as int, bytes_per_pixel(t) as int);
                    pixel_count_lemma(
                        self.width as int,
                        self.height as int,
                        bytes_per_pixel(with_channels_type(t)) as int,
                    );
                }
                self.data = d;
                self.img_type = match t {
                    ImageType::R8 => ImageType::Rgb8,
                    ImageType::R16 => ImageType::Rgb16,
                    ImageType::Ra8 => ImageType::Rgba8,
                    _ => ImageType::Rgba16,
                };
            },
            _ => {},
        }
    }
}

/// Adding an alpha channel a second time changes nothing.
pub proof fn lemma_add_alpha_idempotent(t: ImageType, d: Seq<u8>)
    ensures
        with_alpha_type(with_alpha_type(t)) == with_alpha_type(t),
        alpha_added(with_alpha_type(t), alpha_added(t, d)) == alpha_added(t, d),
        has_alpha(with_alpha_type(t)),
{
}

/// A buffer of `w * h` pixels of `g` bytes holds `w * h` whole groups.
proof fn pixel_count_lemma(w: int, h: int, g: int)
    requires
        g > 0,
        w >= 0,
        h >= 0,
    ensures
        (w * h * g) / g == w * h,
        (w * h * g) % g == 0,
{
    vstd::arithmetic::div_mod::lemma_div_multiples_vanish(w * h, g);
    vstd::arithmetic::div_mod::lemma_mod_multiples_basic(w * h, g);
    assert(w * h * g == g * (w * h)) by (nonlinear_arith);
    assert(w * h * g == (w * h) * g) by (nonlinear_arith);
}

/// Rewrites every pixel of `t`: with `colors` false an opaque alpha sample is
/// appended; with `colors` true the gray sample is repeated three times.
fn expand_pixels(data: &Vec<u8>, t: ImageType, colors: bool) -> (r: Vec<u8>)
    requires
        colors ==> (t is R8 || t is R16 || t is Ra8 || t is Ra16),
        !colors ==> (t is R8 || t is R16 || t is Rgb8 || t is Rgb16),
    ensures
        r@ == concat(if colors { color_pixels(t, data@) } else { opaque_pixels(t, data@) }),
        r@.len() == (data@.len() / bytes_per_pixel(t)) * bytes_per_pixel(
            if colors { with_channels_type(t) } else { with_alpha_type(t) },
        ),
{
    let g = t.bytes_per_pixel() as usize;
    let ghost gs = groups(data@, g as nat);
    let ghost pix = if colors { color_pixels(t, data@) } else { opaque_pixels(t, data@) };
    let ghost out_len: nat = bytes_per_pixel(
        if colors { with_channels_type(t) } else { with_alpha_type(t) },
    );
    let len = data.len();
    let n = len / g;
    let mut out: Vec<u8> = Vec::new();
    let mut p: usize = 0;
    let mut i: usize = 0;
    while p < n
        invariant
            n == data@.len() / (g as nat),
            len == data@.len(),
            g == bytes_per_pixel(t),
            gs == groups(data@, g as nat),
            0 <= p <= n,
            i == p * g,
            pix == if colors { color_pixels(t, data@) } else { opaque_pixels(t, data@) },
            out@ == concat(pix.take(p as int)),
            forall|q: int| 0 <= q < p ==> (#[trigger] pix[q]).len() == out_len,
            colors ==> (t is R8 || t is R16 || t is Ra8 || t is Ra16),
            !colors ==> (t is R8 || t is R16 || t is Rgb8 || t is Rgb16),
            out_len == bytes_per_pixel(
                if colors { with_channels_type(t) } else { with_alpha_type(t) },
            ),
        decreases n - p,
    {
        proof {
            lemma_group_bounds(p as int, g as int, data@.len() as int);
        }
        let ghost px = data@.subrange(i as int, i as int + g as int);
        let ghost before = out@;
        push_expanded(&mut out, data, i, t, colors);
        proof {
            assert(gs[p as int] == px);
            assert(pix.take(p as int + 1) =~= pix.take(p as int).push(pix[p as int]));
            lemma_concat_push(pix.take(p as int), pix[p as int]);
        }
        p = p + 1;
        i = i + g;
    }
    proof {
        assert(pix.take(n as int) =~= pix);
        lemma_concat_len(pix, out_len);
    }
    out
}

/// Appends the pixel of format `t` that starts at `data[i]`, rewritten as
/// `expand_pixels` describes.
fn push_expanded(out: &mut Vec<u8>, data: &Vec<u8>, i: usize, t: ImageType, colors: bool)
    requires
        i + bytes_per_pixel(t) <= data@.len(),
        colors ==> (t is R8 || t is R16 || t is Ra8 || t is Ra16),
        !colors ==> (t is R8 || t is R16 || t is Rgb8 || t is Rgb16),
    ensures
        final(out)@ == old(out)@ + ({
            let px = data@.subrange(i as int, i + bytes_per_pixel(t));
            if colors { color_pixel(t, px) } else { opaque_pixel(t, px) }
        }),
{
    let g = t.bytes_per_pixel() as usize;
    let dlen = data.len();
    let ghost px = data@.subrange(i as int, i as int + g as int);
    let ghost before = out@;
    if colors {
        match t {
            ImageType::R8 => {
                out.push(data[i]);
                out.push(data[i]);
                out.push(data[i]);
            },
            ImageType::R16 => {
                out.push(data[i]);
                out.push(data[i + 1]);
                out.push(data[i]);
                out.push(data[i + 1]);
                out.push(data[i]);
                out.push(data[i + 1]);
            },
            ImageType::Ra8 => {
                out.push(data[i]);
                out.push(data[i]);
                out.push(data[i]);
                out.push(data[i + 1]);
            },
            _ => {
                out.push(data[i]);
                out.push(data[i + 1]);
                out.push(data[i]);
                out.push(data[i + 1]);
                out.push(data[i]);
                out.push(data[i + 1]);
                out.push(data[i + 2]);
                out.push(data[i + 3]);
            },
        }
    } else {
        let mut j: usize = 0;
        while j < g
            invariant
                0 <= j <= g,
                i + g <= data@.len(),
                dlen == data@.len(),
                px == data@.subrange(i as int, i as int + g as int),
                out@ == before + px.take(j as int),
            decreases g - j,
        {
            out.push(data[i + j]);
            proof {
                assert(px.take(j as int + 1) =~= px.take(j as int).push(px[j as int]));
            }
            j = j + 1;
        }
        out.push(0xff);
        if t.is_16_bit() {
            out.push(0xff);
        }
    }
    proof {
        if colors {
            assert(out@ =~= before + color_pixel(t, px));
        } else {
            assert(px.take(g as int) =~= px);
            assert(out@ =~= before + opaque_pixel(t, px));
        }
    }
}

} // verus!
