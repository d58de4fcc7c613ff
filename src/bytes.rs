//! Spec-level helpers for byte sequences: concatenation of groups, splitting
//! into fixed-size groups, and big-endian integers.
use vstd::prelude::*;

verus! {

/// Concatenation of a sequence of byte groups, in order.
pub open spec fn concat(s: Seq<Seq<u8>>) -> Seq<u8>
    decreases s.len(),
{
    if s.len() == 0 {
        Seq::empty()
    } else {
        concat(s.drop_last()) + s.last()
    }
}

/// `d` cut into consecutive groups of `g` bytes (a trailing partial group is dropped).
pub open spec fn groups(d: Seq<u8>, g: nat) -> Seq<Seq<u8>> {
    Seq::new(d.len() / g, |p: int| d.subrange(p * g, p * g + g))
}

/// The 32-bit unsigned integer stored big-endian in four bytes.
pub open spec fn be_u32(b: Seq<u8>) -> u32 {
    ((b[0] as u32) << 24u32) | ((b[1] as u32) << 16u32) | ((b[2] as u32) << 8u32) | (b[3] as u32)
}

/// The four big-endian bytes of `v`.
pub open spec fn u32_be(v: u32) -> Seq<u8> {
    seq![(v >> 24u32) as u8, (v >> 16u32) as u8, (v >> 8u32) as u8, v as u8]
}

/// The 16-bit unsigned integer stored big-endian in two bytes.
pub open spec fn be_u16(hi: u8, lo: u8) -> u16 {
    ((hi as u16) << 8u16) | (lo as u16)
}

/// Appending a group appends its bytes.
pub proof fn lemma_concat_push(s: Seq<Seq<u8>>, x: Seq<u8>)
    ensures
        concat(s.push(x)) == concat(s) + x,
{
    assert(s.push(x).drop_last() =~= s);
}

/// Concatenation distributes over joining two sequences of groups.
pub proof fn lemma_concat_append(s: Seq<Seq<u8>>, t: Seq<Seq<u8>>)
    ensures
        concat(s + t) == concat(s) + concat(t),
    decreases t.len(),
{
    if t.len() > 0 {
        assert((s + t).drop_last() =~= s + t.drop_last());
        lemma_concat_append(s, t.drop_last());
        assert(concat(s + t) =~= concat(s) + concat(t));
    } else {
        assert(s + t =~= s);
        assert(concat(s) + concat(t) =~= concat(s));
    }
}

/// Concatenating groups that all have length `g` gives `s.len() * g` bytes.
pub proof fn lemma_concat_len(s: Seq<Seq<u8>>, g: nat)
    requires
        forall|i: int| 0 <= i < s.len() ==> (#[trigger] s[i]).len() == g,
    ensures
        concat(s).len() == s.len() * g,
    decreases s.len(),
{
    if s.len() > 0 {
        lemma_concat_len(s.drop_last(), g);
        assert(s.len() * g == (s.len() - 1) * g + g) by (nonlinear_arith);
    }
}

/// Byte `j` of group `p` sits at `p * g + j` in the concatenation.
pub proof fn lemma_concat_index(s: Seq<Seq<u8>>, g: nat, p: int, j: int)
    requires
        forall|i: int| 0 <= i < s.len() ==> (#[trigger] s[i]).len() == g,
        0 <= p < s.len(),
        0 <= j < g,
    ensures
        concat(s).len() == s.len() * g,
        concat(s)[p * g + j] == s[p][j],
    decreases s.len(),
{
    lemma_concat_len(s, g);
    let init = s.drop_last();
    lemma_concat_len(init, g);
    if p < s.len() - 1 {
        lemma_concat_index(init, g, p, j);
        assert(p * g + j < init.len() * g) by (nonlinear_arith)
            requires
                p + 1 <= init.len(),
                j < g,
        ;
    } else {
        assert(p * g == init.len() * g);
    }
}

/// Group `p` of `n` bytes cut into groups of `g` lies inside them.
pub proof fn lemma_group_bounds(p: int, g: int, n: int)
    requires
        0 <= p < n / g,
        0 < g,
        0 <= n,
    ensures
        0 <= p * g,
        p * g + g <= n,
{
    assert(0 <= p * g) by (nonlinear_arith)
        requires
            0 <= p,
            0 < g,
    ;
    vstd::arithmetic::div_mod::lemma_fundamental_div_mod(n, g);
    assert(p * g + g <= (n / g) * g) by (nonlinear_arith)
        requires
            p + 1 <= n / g,
            0 < g,
    ;
    assert(0 <= n % g) by {
        vstd::arithmetic::div_mod::lemma_mod_pos_bound(n, g);
    }
}

/// Cutting a sequence into groups and concatenating them again gives it back.
pub proof fn lemma_concat_groups(d: Seq<u8>, g: nat)
    requires
        g > 0,
        d.len() % g == 0,
    ensures
        concat(groups(d, g)) == d,
{
    let s = groups(d, g);
    let n = d.len() as int;
    let gi = g as int;
    assert forall|i: int| 0 <= i < s.len() implies (#[trigger] s[i]).len() == g by {
        lemma_group_bounds(i, gi, n);
    }
    lemma_concat_len(s, g);
    vstd::arithmetic::div_mod::lemma_fundamental_div_mod(n, gi);
    let q = n / gi;
    assert(s.len() == q);
    assert(q * gi == n) by (nonlinear_arith)
        requires
            n == gi * q + n % gi,
            n % gi == 0,
    ;
    assert forall|k: int| 0 <= k < n implies #[trigger] concat(s)[k] == d[k] by {
        let p = k / gi;
        let j = k % gi;
        vstd::arithmetic::div_mod::lemma_fundamental_div_mod(k, gi);
        vstd::arithmetic::div_mod::lemma_mod_pos_bound(k, gi);
        vstd::arithmetic::div_mod::lemma_div_pos_is_pos(k, gi);
        assert(p < q) by (nonlinear_arith)
            requires
                k == gi * p + j,
                0 <= j,
                k < n,
                n == q * gi,
                gi > 0,
        ;
        lemma_group_bounds(p, gi, n);
        lemma_concat_index(s, g, p, j);
        assert(p * gi + j == k) by (nonlinear_arith)
            requires
                k == gi * p + j,
        ;
    }
    assert(concat(s) =~= d);
}

/// A new vector holding `a` followed by `b`.
pub fn joined(a: &[u8], b: &[u8]) -> (r: Vec<u8>)
    ensures
        r@ == a@ + b@,
{
    let mut out: Vec<u8> = Vec::new();
    let mut i: usize = 0;
    while i < a.len()
        invariant
            0 <= i <= a@.len(),
            out@ == a@.take(i as int),
        decreases a@.len() - i,
    {
        out.push(a[i]);
        assert(out@ =~= a@.take(i + 1));
        i = i + 1;
    }
    let mut j: usize = 0;
    while j < b.len()
        invariant
            0 <= j <= b@.len(),
            out@ == a@ + b@.take(j as int),
        decreases b@.len() - j,
    {
        out.push(b[j]);
        assert(out@ =~= a@ + b@.take(j + 1));
        j = j + 1;
    }
    assert(a@.take(a@.len() as int) =~= a@);
    assert(b@.take(b@.len() as int) =~= b@);
    out
}
/// Appends the bytes of `b` to `v`.
pub fn extend_bytes(v: &mut Vec<u8>, b: &[u8])
    ensures
        final(v)@ == old(v)@ + b@,
{
    let ghost start = v@;
    let mut j: usize = 0;
    while j < b.len()
        invariant
            0 <= j <= b@.len(),
            v@ == start + b@.take(j as int),
        decreases b@.len() - j,
    {
        v.push(b[j]);
        assert(v@ =~= start + b@.take(j + 1));
        j = j + 1;
    }
    assert(b@.take(b@.len() as int) =~= b@);
}
} // verus!
