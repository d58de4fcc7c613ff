//! Scanline filters: the five reconstruction filters used when decoding and
//! the Paeth filter used when encoding.
use crate::bytes::joined;
use crate::helpers::{channels, ColorType};
use vstd::prelude::*;
use vstd::slice::{slice_subrange, slice_to_vec};

verus! {

/// |x|
pub open spec fn abs(x: int) -> int {
    if x < 0 {
        -x
    } else {
        x
    }
}

/// The Paeth predictor: whichever of `a`, `b`, `c` is nearest to `a + b - c`,
/// ties going to `a`, then `b`.
pub open spec fn paeth_predictor(a: u8, b: u8, c: u8) -> u8 {
    let p = a + b - c;
    let pa = abs(p - a);
    let pb = abs(p - b);
    let pc = abs(p - c);
    if pa <= pb && pa <= pc {
        a
    } else if pb <= pc {
        b
    } else {
        c
    }
}

/// The value that filter `ft` predicts from the neighbours `a` (left), `b` (up)
/// and `c` (up-left).
pub open spec fn predictor(ft: u8, a: u8, b: u8, c: u8) -> int {
    if ft == 1 {
        a as int
    } else if ft == 2 {
        b as int
    } else if ft == 3 {
        (a + b) / 2
    } else if ft == 4 {
        paeth_predictor(a, b, c) as int
    } else {
        0
    }
}

/// Reconstructs a byte: the filtered byte plus the prediction, modulo 256.
pub open spec fn recon_byte(ft: u8, x: u8, a: u8, b: u8, c: u8) -> u8 {
    ((x + predictor(ft, a, b, c)) % 256) as u8
}

/// The first `n` bytes of a row reconstructed from the filtered row `raw` with
/// filter `ft`, where `prev` is the reconstructed row above and `bpp` the byte
/// distance to the previous pixel. Each reconstructed byte serves as the left
/// neighbour of the byte `bpp` places later.
pub open spec fn recon_prefix(ft: u8, raw: Seq<u8>, prev: Seq<u8>, bpp: nat, n: nat) -> Seq<u8>
    decreases n,
{
    if n == 0 {
        Seq::empty()
    } else {
        let done = recon_prefix(ft, raw, prev, bpp, (n - 1) as nat);
        let i = n - 1;
        let a = if i >= bpp { done[i - bpp] } else { 0u8 };
        let c = if i >= bpp { prev[i - bpp] } else { 0u8 };
        done.push(recon_byte(ft, raw[i], a, prev[i], c))
    }
}

/// The whole row reconstructed from `raw`.
pub open spec fn recon_row(ft: u8, raw: Seq<u8>, prev: Seq<u8>, bpp: nat) -> Seq<u8> {
    recon_prefix(ft, raw, prev, bpp, raw.len())
}

/// Row `cur` filtered with the Paeth filter, `prev` being the row above.
pub open spec fn paeth_filtered(cur: Seq<u8>, prev: Seq<u8>, bpp: nat) -> Seq<u8> {
    Seq::new(
        cur.len(),
        |i: int|
            {
                let a = if i >= bpp { cur[i - bpp] } else { 0u8 };
                let c = if i >= bpp { prev[i - bpp] } else { 0u8 };
                ((cur[i] - paeth_predictor(a, prev[i], c) + 256) % 256) as u8
            },
    )
}

/// Byte distance to the previous pixel for a color type and bit depth (1 for
/// depths below 8).
pub open spec fn bpp_of(t: ColorType, depth: u8) -> nat {
    channels(t) * if depth == 16 { 2nat } else { 1nat }
}

///Neighbour access over scanlines stored one after another
pub struct Filtered {
    ///The scanlines, one after another
    pub data: Vec<u8>,
    ///Color type of the image
    pub color_type: ColorType,
    ///Length of one scanline in `data`, a leading filter byte included
    pub scanline_len: usize,
    ///Bit depth of the image
    pub bit_depth: u8,
    ///Whether each scanline starts with a filter byte, which is never a neighbour
    pub ignore_0: bool,
}

impl Filtered {
    /// Byte distance to the previous pixel.
    pub open spec fn offset(&self) -> nat {
        bpp_of(self.color_type, self.bit_depth)
    }

    /// Bytes at the start of each scanline that have no left neighbour.
    pub open spec fn no_left(&self) -> int {
        self.offset() + if self.ignore_0 { 1int } else { 0int }
    }

    /// Byte `i` of the data, 0 past its end.
    pub open spec fn byte_at(&self, i: int) -> u8 {
        if 0 <= i < self.data@.len() {
            self.data@[i]
        } else {
            0
        }
    }

    /// The left neighbour `a` of byte `i`, 0 where it would cross the start of
    /// the scanline or lie past the end of the data.
    pub open spec fn a_spec(&self, i: int) -> u8 {
        if i % (self.scanline_len as int) < self.no_left() {
            0
        } else {
            self.byte_at(i - self.offset())
        }
    }

    /// The upper neighbour `b` of byte `i`, 0 in the first scanline or past the end of the data.
    pub open spec fn b_spec(&self, i: int) -> u8 {
        if i >= self.scanline_len {
            self.byte_at(i - self.scanline_len)
        } else {
            0
        }
    }

    /// The upper-left neighbour `c` of byte `i`, 0 in the first scanline.
    pub open spec fn c_spec(&self, i: int) -> u8 {
        if i > self.scanline_len {
            self.a_spec(i - self.scanline_len)
        } else {
            0
        }
    }

    ///Overwrites byte `index`
    pub fn set(&mut self, index: usize, val: u8)
        requires
            index < old(self).data@.len(),
        ensures
            final(self).data@ == old(self).data@.update(index as int, val),
            final(self).color_type == old(self).color_type,
            final(self).scanline_len == old(self).scanline_len,
            final(self).bit_depth == old(self).bit_depth,
            final(self).ignore_0 == old(self).ignore_0,
    {
        self.data.set(index, val);
    }

    ///Byte distance to the previous pixel
    pub fn offset_exec(&self) -> (r: usize)
        ensures
            r == self.offset(),
    {
        let channels: usize = match self.color_type {
            ColorType::IndexedColor | ColorType::Greyscale => 1,
            ColorType::Truecolor => 3,
            ColorType::GreyscaleAlpha => 2,
            ColorType::TruecolorAlpha => 4,
        };
        channels * if self.bit_depth == 16 { 2 } else { 1 }
    }

    //Bytes
    //  |c|b|
    //  |a|x|
    //  x = current
    ///Left neighbour of byte `index`
    pub fn get_a(&self, index: usize) -> (r: u8)
        requires
            self.scanline_len > 0,
        ensures
            r == self.a_spec(index as int),
    {
        let offset = self.offset_exec();
        let col = index % self.scanline_len;
        let lead: usize = if self.ignore_0 { 1 } else { 0 };
        if col < offset + lead {
            return 0;
        }
        proof {
            vstd::arithmetic::div_mod::lemma_fundamental_div_mod(index as int, self.scanline_len as int);
            vstd::arithmetic::div_mod::lemma_div_pos_is_pos(index as int, self.scanline_len as int);
            assert(index % self.scanline_len <= index) by (nonlinear_arith)
                requires
                    index == self.scanline_len * (index / self.scanline_len) + index % self.scanline_len,
                    index / self.scanline_len >= 0,
                    self.scanline_len > 0,
            ;
        }
        let at = index - offset;
        if at < self.data.len() {
            self.data[at]
        } else {
            0
        }
    }

    ///Upper neighbour of byte `index`
    pub fn get_b(&self, index: usize) -> (r: u8)
        ensures
            r == self.b_spec(index as int),
    {
        if index >= self.scanline_len {
            let at = index - self.scanline_len;
            if at < self.data.len() {
                self.data[at]
            } else {
                0
            }
        } else {
            0
        }
    }

    ///Upper-left neighbour of byte `index`
    pub fn get_c(&self, index: usize) -> (r: u8)
        requires
            self.scanline_len > 0,
        ensures
            r == self.c_spec(index as int),
    {
        if index > self.scanline_len {
            self.get_a(index - self.scanline_len)
        } else {
            0
        }
    }

    ///Paeth prediction for byte `index`
    pub fn paeth(&self, index: usize) -> (r: u8)
        requires
            self.scanline_len > 0,
        ensures
            r == paeth_predictor(self.a_spec(index as int), self.b_spec(index as int), self.c_spec(index as int)),
    {
        paeth_exec(self.get_a(index), self.get_b(index), self.get_c(index))
    }
}

///The Paeth predictor of three neighbours
pub fn paeth_exec(a: u8, b: u8, c: u8) -> (r: u8)
    ensures
        r == paeth_predictor(a, b, c),
{
    let a = a as i16;
    let b = b as i16;
    let c = c as i16;
    let p = a + b - c;
    let pa = if p - a < 0 { a - p } else { p - a };
    let pb = if p - b < 0 { b - p } else { p - b };
    let pc = if p - c < 0 { c - p } else { p - c };
    if pa <= pb && pa <= pc {
        a as u8
    } else if pb <= pc {
        b as u8
    } else {
        c as u8
    }
}

/// Byte `i` of the second scanline of a two-scanline window sits at column `i`.
proof fn lemma_window_index(rl: int, i: int)
    requires
        0 <= i < rl,
    ensures
        (rl + i) % rl == i,
        i % rl == i,
{
    vstd::arithmetic::div_mod::lemma_small_mod(i as nat, rl as nat);
    vstd::arithmetic::div_mod::lemma_mod_add_multiples_vanish(i, rl);
}

///Reconstructs one scanline filtered with filter `ft`, given the reconstructed scanline above
pub fn unfilter_row(ft: u8, raw: &[u8], prev: &[u8], color_type: ColorType, bit_depth: u8) -> (r: Vec<u8>)
    requires
        ft <= 4,
        raw@.len() == prev@.len(),
        raw@.len() > 0,
    ensures
        r@ == recon_row(ft, raw@, prev@, bpp_of(color_type, bit_depth)),
{
    let rl = raw.len();
    let mut w = Filtered {
        data: joined(prev, raw),
        color_type,
        scanline_len: rl,
        bit_depth,
        ignore_0: false,
    };
    let ghost bpp = bpp_of(color_type, bit_depth);
    let total = w.data.len();
    let mut i: usize = 0;
    while i < rl
        invariant
            total == 2 * rl,
            rl == raw@.len(),
            rl == prev@.len(),
            w.scanline_len == rl,
            w.color_type == color_type,
            w.bit_depth == bit_depth,
            !w.ignore_0,
            bpp == w.offset(),
            0 <= i <= rl,
            ft <= 4,
            w.data@ == prev@ + recon_prefix(ft, raw@, prev@, bpp, i as nat) + raw@.skip(i as int),
        decreases rl - i,
    {
        let ghost done = recon_prefix(ft, raw@, prev@, bpp, i as nat);
        let idx = rl + i;
        proof {
            lemma_window_index(rl as int, i as int);
            assert(done.len() == i) by {
                lemma_recon_prefix_len(ft, raw@, prev@, bpp, i as nat);
            }
            assert(w.data@[idx as int] == raw@[i as int]);
            assert(w.b_spec(idx as int) == prev@[i as int]);
            assert(w.a_spec(idx as int) == if i >= bpp { done[i - bpp] } else { 0u8 });
            assert(w.c_spec(idx as int) == if i >= bpp { prev@[i - bpp] } else { 0u8 }) by {
                if i > 0 {
                    lemma_window_index(rl as int, i as int);
                }
            }
        }
        let x = w.data[idx] as u16;
        let pred: u16 = match ft {
            0 => 0,
            1 => w.get_a(idx) as u16,
            2 => w.get_b(idx) as u16,
            3 => (w.get_a(idx) as u16 + w.get_b(idx) as u16) / 2,
            _ => w.paeth(idx) as u16,
        };
        let v = ((x + pred) % 256) as u8;
        w.set(idx, v);
        proof {
            assert(w.data@ =~= prev@ + recon_prefix(ft, raw@, prev@, bpp, (i + 1) as nat) + raw@.skip(i + 1));
        }
        i = i + 1;
    }
    proof {
        lemma_recon_prefix_len(ft, raw@, prev@, bpp, rl as nat);
    }
    let r = slice_to_vec(slice_subrange(w.data.as_slice(), rl, total));
    proof {
        assert(r@ =~= recon_row(ft, raw@, prev@, bpp));
    }
    r
}

/// A reconstructed prefix of `n` bytes has length `n`.
pub proof fn lemma_recon_prefix_len(ft: u8, raw: Seq<u8>, prev: Seq<u8>, bpp: nat, n: nat)
    ensures
        recon_prefix(ft, raw, prev, bpp, n).len() == n,
    decreases n,
{
    if n > 0 {
        lemma_recon_prefix_len(ft, raw, prev, bpp, (n - 1) as nat);
    }
}

///Filters one scanline with the Paeth filter, given the scanline above
pub fn filter_row_paeth(cur: &[u8], prev: &[u8], color_type: ColorType, bit_depth: u8) -> (r: Vec<u8>)
    requires
        cur@.len() == prev@.len(),
        cur@.len() > 0,
    ensures
        r@ == paeth_filtered(cur@, prev@, bpp_of(color_type, bit_depth)),
{
    let rl = cur.len();
    let w = Filtered {
        data: joined(prev, cur),
        color_type,
        scanline_len: rl,
        bit_depth,
        ignore_0: false,
    };
    let ghost bpp = bpp_of(color_type, bit_depth);
    let total = w.data.len();
    let mut out: Vec<u8> = Vec::new();
    let mut i: usize = 0;
    while i < rl
        invariant
            total == 2 * rl,
            rl == cur@.len(),
            rl == prev@.len(),
            w.scanline_len == rl,
            !w.ignore_0,
            bpp == w.offset(),
            w.data@ == prev@ + cur@,
            0 <= i <= rl,
            out@ == paeth_filtered(cur@, prev@, bpp).take(i as int),
        decreases rl - i,
    {
        let idx = rl + i;
        proof {
            lemma_window_index(rl as int, i as int);
            assert(w.c_spec(idx as int) == if i >= bpp { prev@[i - bpp] } else { 0u8 }) by {
                if i > 0 {
                    lemma_window_index(rl as int, i as int);
                }
            }
        }
        let pt = w.paeth(idx);
        let x = cur[i];
        out.push(((x as u16 + 256 - pt as u16) % 256) as u8);
        proof {
            assert(out@ =~= paeth_filtered(cur@, prev@, bpp).take(i + 1));
        }
        i = i + 1;
    }
    proof {
        assert(out@ =~= paeth_filtered(cur@, prev@, bpp));
    }
    out
}

/// Reconstructing a Paeth-filtered row gives the row back.
pub proof fn lemma_paeth_round_trip(cur: Seq<u8>, prev: Seq<u8>, bpp: nat)
    requires
        cur.len() == prev.len(),
        bpp > 0,
    ensures
        recon_row(4, paeth_filtered(cur, prev, bpp), prev, bpp) == cur,
{
    let f = paeth_filtered(cur, prev, bpp);
    lemma_paeth_prefix(cur, prev, bpp, cur.len());
    assert(cur.take(cur.len() as int) =~= cur);
}

/// Each reconstructed prefix of a Paeth-filtered row is the same prefix of the row.
proof fn lemma_paeth_prefix(cur: Seq<u8>, prev: Seq<u8>, bpp: nat, n: nat)
    requires
        cur.len() == prev.len(),
        bpp > 0,
        n <= cur.len(),
    ensures
        recon_prefix(4, paeth_filtered(cur, prev, bpp), prev, bpp, n) == cur.take(n as int),
    decreases n,
{
    if n > 0 {
        lemma_paeth_prefix(cur, prev, bpp, (n - 1) as nat);
        assert(cur.take(n as int) =~= cur.take(n - 1).push(cur[n - 1]));
    }
}
} // verus!
