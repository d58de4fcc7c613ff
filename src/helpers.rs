//! Color types, bit depths, palettes and 16-bit sample helpers.
use vstd::prelude::*;
use vstd::slice::slice_subrange;

verus! {

///Color type of a png image, as its header gives it
#[derive(Debug, Clone, Copy, PartialEq, Eq, Structural)]
pub enum ColorType {
    ///Gray samples
    Greyscale,
    ///Red, green and blue samples
    Truecolor,
    ///Palette indices
    IndexedColor,
    ///Gray and alpha samples
    GreyscaleAlpha,
    ///Red, green, blue and alpha samples
    TruecolorAlpha,
}

/// Whether `t` is one of the color type codes of the format (0, 2, 3, 4 or 6).
pub open spec fn is_color_type_code(t: u8) -> bool {
    t == 0 || t == 2 || t == 3 || t == 4 || t == 6
}

/// The color type with code `t`.
pub open spec fn color_type_of(t: u8) -> ColorType {
    if t == 0 {
        ColorType::Greyscale
    } else if t == 2 {
        ColorType::Truecolor
    } else if t == 3 {
        ColorType::IndexedColor
    } else if t == 4 {
        ColorType::GreyscaleAlpha
    } else {
        ColorType::TruecolorAlpha
    }
}

/// Whether `depth` is a bit depth that the color type allows.
pub open spec fn valid_bit_depth(t: ColorType, depth: u8) -> bool {
    match t {
        ColorType::Greyscale => depth == 1 || depth == 2 || depth == 4 || depth == 8 || depth == 16,
        ColorType::IndexedColor => depth == 1 || depth == 2 || depth == 4 || depth == 8,
        _ => depth == 8 || depth == 16,
    }
}

/// Number of samples per pixel of a color type.
pub open spec fn channels(t: ColorType) -> nat {
    match t {
        ColorType::Greyscale | ColorType::IndexedColor => 1,
        ColorType::GreyscaleAlpha => 2,
        ColorType::Truecolor => 3,
        ColorType::TruecolorAlpha => 4,
    }
}

///Maps a color type code to its color type
pub fn to_color_type(t: u8) -> (r: ColorType)
    requires
        is_color_type_code(t),
    ensures
        r == color_type_of(t),
{
    match t {
        0 => ColorType::Greyscale,
        2 => ColorType::Truecolor,
        3 => ColorType::IndexedColor,
        4 => ColorType::GreyscaleAlpha,
        _ => ColorType::TruecolorAlpha,
    }
}

///Whether a bit depth is allowed for a color type
pub fn validate_bit_depth(t: ColorType, depth: u8) -> (r: bool)
    ensures
        r == valid_bit_depth(t, depth),
{
    let valid: Vec<u8> = match t {
        ColorType::Greyscale => vec![1, 2, 4, 8, 16],
        ColorType::IndexedColor => vec![1, 2, 4, 8],
        ColorType::Truecolor | ColorType::GreyscaleAlpha | ColorType::TruecolorAlpha => vec![8, 16],
    };
    let mut i: usize = 0;
    while i < valid.len()
        invariant
            0 <= i <= valid@.len(),
            valid_bit_depth(t, depth) <==> exists|k: int| 0 <= k < valid@.len() && valid@[k] == depth,
            forall|k: int| 0 <= k < i ==> valid@[k] != depth,
        decreases valid@.len() - i,
    {
        if valid[i] == depth {
            return true;
        }
        i = i + 1;
    }
    false
}

///Alpha values of the palette entries, from a tRNS chunk
pub struct TrnsPallete {
    inner: Vec<u8>,
}

impl View for TrnsPallete {
    type V = Seq<u8>;

    closed spec fn view(&self) -> Seq<u8> {
        self.inner@
    }
}

/// Alpha of palette entry `index`: the listed value, or 255 past the end of the list.
pub open spec fn trns_alpha(t: Seq<u8>, index: u8) -> u8 {
    if (index as int) < t.len() {
        t[index as int]
    } else {
        255
    }
}

impl TrnsPallete {
    ///Alpha table holding `data`
    pub fn new(data: Vec<u8>) -> (r: Self)
        ensures
            r@ == data@,
    {
        Self { inner: data }
    }

    ///Alpha of palette entry `index`
    pub fn get(&self, index: u8) -> (r: u8)
        ensures
            r == trns_alpha(self@, index),
    {
        if index as usize >= self.inner.len() {
            255
        } else {
            self.inner[index as usize]
        }
    }
}

///Palette of an indexed image: red, green and blue of each entry in turn
pub struct Pallete {
    inner: Vec<u8>,
}

impl View for Pallete {
    type V = Seq<u8>;

    closed spec fn view(&self) -> Seq<u8> {
        self.inner@
    }
}

/// Whether palette `p` has an entry `index`.
pub open spec fn has_entry(p: Seq<u8>, index: u8) -> bool {
    3 * (index as int) + 3 <= p.len()
}

/// The three bytes of entry `index` of palette `p`.
pub open spec fn entry(p: Seq<u8>, index: u8) -> Seq<u8> {
    p.subrange(3 * index as int, 3 * index as int + 3)
}

impl Pallete {
    ///A palette with no entries
    pub fn empty() -> (r: Self)
        ensures
            r@ == Seq::<u8>::empty(),
    {
        Self { inner: Vec::new() }
    }

    ///Palette whose entries are the consecutive triples of `data`
    pub fn new(data: Vec<u8>) -> (r: Self)
        ensures
            r@ == data@,
    {
        Self { inner: data }
    }

    ///Whether the palette has an entry `index`
    pub fn contains(&self, index: u8) -> (r: bool)
        ensures
            r == has_entry(self@, index),
    {
        (index as usize) * 3 + 3 <= self.inner.len()
    }

    ///Red, green and blue of entry `index`
    pub fn get(&self, index: u8) -> (r: &[u8])
        requires
            has_entry(self@, index),
        ensures
            r@ == entry(self@, index),
    {
        let index = index as usize * 3;
        slice_subrange(self.inner.as_slice(), index, index + 3)
    }
}

///Merges 2 u8 to create a u16, the first being the low byte
pub fn to_u16(a: u8, b: u8) -> (r: u16)
    ensures
        r == a as u16 + 256 * b as u16,
{
    let r = (a as u16) | ((b as u16) << 8);
    assert(r == a as u16 + 256 * b as u16) by (bit_vector)
        requires
            r == (a as u16) | ((b as u16) << 8),
    ;
    r
}

} // verus!
