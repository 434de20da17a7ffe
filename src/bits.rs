//! Bit-vectors: the outside `BitVec`, little-endian packing of integers,
//! and Rice codes.
use bitvec::order::Lsb0;
use bitvec::vec::BitVec;
use vstd::arithmetic::power2::{lemma_pow2_unfold, pow2};
use vstd::prelude::*;

verus! {

/// A bit-vector of `usize` words, least significant bit first, held in
/// `bitvec`'s `BitVec`.
#[verifier::external_body]
pub struct Bits {
    inner: BitVec<usize, Lsb0>,
}

/// The bits a bit-vector holds, in order.
pub uninterp spec fn bits_of(v: Bits) -> Seq<bool>;

/// The most bits a bit-vector may hold.
pub const MAX_BITS: usize = usize::MAX / 8;

/// Relies on `BitVec::new`: an empty bit-vector.
#[verifier::external_body]
pub fn bits_new() -> (r: Bits)
    ensures
        bits_of(r) == Seq::<bool>::empty(),
{
    Bits { inner: BitVec::new() }
}

/// Relies on `BitVec::push`: appends one bit (it panics past `usize::MAX >> 3` bits).
#[verifier::external_body]
pub fn bits_push(v: &mut Bits, b: bool)
    requires
        bits_of(*old(v)).len() < MAX_BITS,
    ensures
        bits_of(*final(v)) == bits_of(*old(v)).push(b),
{
    v.inner.push(b)
}

/// Relies on `BitVec::len`: the number of bits.
#[verifier::external_body]
pub fn bits_len(v: &Bits) -> (r: usize)
    ensures
        r == bits_of(*v).len(),
{
    v.inner.len()
}

/// Relies on indexing a `BitSlice`: the bit at position `i`.
#[verifier::external_body]
pub fn bits_get(v: &Bits, i: usize) -> (r: bool)
    requires
        i < bits_of(*v).len(),
    ensures
        r == bits_of(*v)[i as int],
{
    v.inner[i]
}

/// Bit `i` of `x`.
pub open spec fn bit(x: u64, i: nat) -> bool {
    (x as nat / pow2(i)) % 2 == 1
}

/// The `w` least significant bits of `x`, least significant first.
pub open spec fn lsb_bits(x: u64, w: nat) -> Seq<bool> {
    Seq::new(w, |i: int| bit(x, i as nat))
}

/// The integer whose bits, least significant first, are the first `w` bits of `s`.
pub open spec fn bits_value(s: Seq<bool>, w: nat) -> nat
    decreases w,
{
    if w == 0 {
        0
    } else {
        bits_value(s, (w - 1) as nat) + if s[w - 1] {
            pow2((w - 1) as nat)
        } else {
            0
        }
    }
}

/// The Rice code of `x` with parameter `k`: the quotient `x / 2^k` in unary
/// (ones), a zero, then the `k` low bits of `x`, least significant first.
pub open spec fn rice_bits(x: u64, k: nat) -> Seq<bool> {
    Seq::new(x as nat / pow2(k), |i: int| true) + seq![false] + lsb_bits(x, k)
}

/// The number of ones in `s` from position `pos` up to the first zero.
pub open spec fn ones_run(s: Seq<bool>, pos: nat) -> nat
    decreases s.len() - pos,
{
    if pos >= s.len() || !s[pos as int] {
        0
    } else {
        1 + ones_run(s, pos + 1)
    }
}

/// Whether a Rice code with parameter `k` can be read at `pos`: a zero ends
/// the unary part and `k` bits follow it.
pub open spec fn rice_readable(s: Seq<bool>, pos: nat, k: nat) -> bool {
    pos + ones_run(s, pos) + 1 + k <= s.len()
}

/// The value of the Rice code with parameter `k` at `pos`.
pub open spec fn rice_value(s: Seq<bool>, pos: nat, k: nat) -> nat {
    let q = ones_run(s, pos);
    q * pow2(k) + bits_value(s.subrange((pos + q + 1) as int, (pos + q + 1 + k) as int), k)
}

/// Where the Rice code at `pos` ends.
pub open spec fn rice_end(s: Seq<bool>, pos: nat, k: nat) -> nat {
    pos + ones_run(s, pos) + 1 + k
}

proof fn lemma_bits_value_prefix(s: Seq<bool>, t: Seq<bool>, w: nat)
    requires
        w <= s.len(),
        w <= t.len(),
        forall|i: int| 0 <= i < w ==> s[i] == t[i],
    ensures
        bits_value(s, w) == bits_value(t, w),
    decreases w,
{
    if w > 0 {
        lemma_bits_value_prefix(s, t, (w - 1) as nat);
    }
}

/// The low `w` bits of `x` read back give `x` modulo `2^w`.
pub proof fn lemma_lsb_bits_value(x: u64, w: nat)
    ensures
        bits_value(lsb_bits(x, w), w) == x as nat % pow2(w),
    decreases w,
{
    if w == 0 {
        assert(pow2(0) == 1) by {
            vstd::arithmetic::power2::lemma2_to64();
        }
    } else {
        let v = (w - 1) as nat;
        lemma_bits_value_prefix(lsb_bits(x, w), lsb_bits(x, v), v);
        lemma_lsb_bits_value(x, v);
        lemma_pow2_unfold(w);
        vstd::arithmetic::power2::lemma_pow2_pos(v);
        vstd::arithmetic::div_mod::lemma_breakdown(x as int, pow2(v) as int, 2);
        assert(pow2(v) * 2 == pow2(w));
        let b = (x as nat / pow2(v)) % 2;
        assert(b == 0 || b == 1);
    }
}

/// Reading the Rice code of `x` gives `x` back, whatever precedes or follows it.
pub proof fn lemma_rice_round_trip(x: u64, k: nat, pre: Seq<bool>, rest: Seq<bool>)
    ensures
        ({
            let s = pre + rice_bits(x, k) + rest;
            &&& rice_readable(s, pre.len(), k)
            &&& rice_value(s, pre.len(), k) == x
            &&& rice_end(s, pre.len(), k) == pre.len() + rice_bits(x, k).len()
        }),
{
    let s = pre + rice_bits(x, k) + rest;
    let q = x as nat / pow2(k);
    let p = pre.len();
    let rb = rice_bits(x, k);
    vstd::arithmetic::power2::lemma_pow2_pos(k);
    assert(rb.len() == q + 1 + k);
    assert forall|i: int| p <= i < p + q implies s[i] by {
        assert(s[i] == rb[i - p]);
    }
    assert(s[(p + q) as int] == rb[q as int]);
    lemma_ones_run(s, p, q);
    let low = s.subrange((p + q + 1) as int, (p + q + 1 + k) as int);
    assert(low =~= lsb_bits(x, k));
    lemma_lsb_bits_value(x, k);
    vstd::arithmetic::power2::lemma_pow2_pos(k);
    vstd::arithmetic::div_mod::lemma_fundamental_div_mod(x as int, pow2(k) as int);
    assert(q * pow2(k) == pow2(k) * q) by (nonlinear_arith);
}

/// A readable code keeps its value and end when bits are appended.
pub proof fn lemma_rice_prefix(s: Seq<bool>, t: Seq<bool>, p: nat, k: nat)
    requires
        rice_readable(s, p, k),
    ensures
        rice_readable(s + t, p, k),
        rice_value(s + t, p, k) == rice_value(s, p, k),
        rice_end(s + t, p, k) == rice_end(s, p, k),
{
    let q = ones_run(s, p);
    lemma_ones_run_prefix(s, t, p);
    let u = s + t;
    assert(u.subrange((p + q + 1) as int, (p + q + 1 + k) as int) =~= s.subrange(
        (p + q + 1) as int,
        (p + q + 1 + k) as int,
    ));
}

proof fn lemma_ones_run_prefix(s: Seq<bool>, t: Seq<bool>, p: nat)
    requires
        p + ones_run(s, p) < s.len(),
    ensures
        ones_run(s + t, p) == ones_run(s, p),
    decreases s.len() - p,
{
    let u = s + t;
    assert(u[p as int] == s[p as int]);
    if s[p as int] {
        lemma_ones_run_prefix(s, t, p + 1);
    }
}

proof fn lemma_ones_run(s: Seq<bool>, p: nat, q: nat)
    requires
        p + q < s.len(),
        forall|i: int| p <= i < p + q ==> s[i],
        !s[(p + q) as int],
    ensures
        ones_run(s, p) == q,
    decreases q,
{
    if q > 0 {
        lemma_ones_run(s, p + 1, (q - 1) as nat);
    }
}

/// Appends the `w` low bits of `x`, least significant first.
pub fn push_bits(out: &mut Bits, x: u64, w: usize)
    requires
        w <= 64,
        bits_of(*old(out)).len() + w <= MAX_BITS,
    ensures
        bits_of(*final(out)) == bits_of(*old(out)) + lsb_bits(x, w as nat),
{
    let ghost start = bits_of(*out);
    let mut i: usize = 0;
    while i < w
        invariant
            0 <= i <= w,
            w <= 64,
            start.len() + w <= MAX_BITS,
            bits_of(*out) == start + lsb_bits(x, i as nat),
        decreases w - i,
    {
        let b = (x >> i as u64) & 1 == 1;
        proof {
            vstd::bits::lemma_u64_shr_is_div(x, i as u64);
            let y = x >> i as u64;
            assert((y & 1 == 1) == (y % 2 == 1)) by (bit_vector);
        }
        bits_push(out, b);
        i += 1;
        assert(bits_of(*out) =~= start + lsb_bits(x, i as nat));
    }
}

/// Reads `w` bits from position `pos` as an integer, least significant first.
pub fn load_bits(v: &Bits, pos: usize, w: usize) -> (r: u64)
    requires
        w <= 64,
        pos + w <= bits_of(*v).len(),
    ensures
        r == bits_value(bits_of(*v).subrange(pos as int, pos + w), w as nat),
{
    let ghost s = bits_of(*v).subrange(pos as int, pos + w);
    let _len = bits_len(v);
    proof {
        vstd::arithmetic::power2::lemma2_to64();
    }
    let mut value: u64 = 0;
    let mut i: usize = 0;
    while i < w
        invariant
            0 <= i <= w,
            w <= 64,
            pos + w <= bits_of(*v).len(),
            s == bits_of(*v).subrange(pos as int, pos + w),
            value == bits_value(s, i as nat),
            value < pow2(i as nat),
            bits_of(*v).len() == _len,
        decreases w - i,
    {
        let b = bits_get(v, pos + i);
        proof {
            lemma_pow2_unfold((i + 1) as nat);
            vstd::arithmetic::power2::lemma2_to64();
            if i + 1 < 64 {
                vstd::arithmetic::power2::lemma_pow2_strictly_increases((i + 1) as nat, 64);
            }
            vstd::bits::lemma_u64_pow2_no_overflow(i as nat);
            assert(s[i as int] == b);
        }
        if b {
            proof {
                vstd::bits::lemma_u64_shl_is_mul(1, i as u64);
            }
            value = value + (1u64 << i as u64);
        }
        i += 1;
    }
    value
}

/// Appends the Rice code of `x` with parameter `k`.
pub fn rice_encode(x: u64, k: u8, output: &mut Bits)
    requires
        1 <= k <= 63,
        bits_of(*old(output)).len() + (x as nat / pow2(k as nat)) + 1 + k <= MAX_BITS,
    ensures
        bits_of(*final(output)) == bits_of(*old(output)) + rice_bits(x, k as nat),
{
    let ghost start = bits_of(*output);
    let q = x >> k as u64;
    proof {
        vstd::bits::lemma_u64_shr_is_div(x, k as u64);
    }
    let mut i: u64 = 0;
    while i < q
        invariant
            0 <= i <= q,
            q == x as nat / pow2(k as nat),
            start.len() + q + 1 + k <= MAX_BITS,
            bits_of(*output) == start + Seq::new(i as nat, |j: int| true),
        decreases q - i,
    {
        bits_push(output, true);
        i += 1;
        assert(bits_of(*output) =~= start + Seq::new(i as nat, |j: int| true));
    }
    bits_push(output, false);
    push_bits(output, x, k as usize);
    assert(bits_of(*output) =~= start + rice_bits(x, k as nat));
}

/// Reads the Rice code with parameter `k` at `pos`; returns its value and
/// the position after it, or `None` where no whole code of a 64-bit value
/// stands there.
pub fn rice_decode(k: u8, input: &Bits, pos: usize) -> (r: Option<(u64, usize)>)
    requires
        1 <= k <= 63,
    ensures
        r matches Some((x, end)) ==> rice_readable(bits_of(*input), pos as nat, k as nat) && x
            == rice_value(bits_of(*input), pos as nat, k as nat) && end == rice_end(
            bits_of(*input),
            pos as nat,
            k as nat,
        ),
        r is None ==> !rice_readable(bits_of(*input), pos as nat, k as nat) || rice_value(
            bits_of(*input),
            pos as nat,
            k as nat,
        ) > u64::MAX,
{
    let ghost s = bits_of(*input);
    let len = bits_len(input);
    let mut i: usize = pos;
    while i < len && bits_get(input, i)
        invariant
            pos <= i,
            len == s.len(),
            s == bits_of(*input),
            ones_run(s, pos as nat) == (i - pos) + ones_run(s, i as nat),
        decreases len - i,
    {
        i += 1;
    }
    if i >= len || len - i - 1 < k as usize {
        return None;
    }
    let q = (i - pos) as u64;
    let low = load_bits(input, i + 1, k as usize);
    proof {
        vstd::bits::lemma_u64_pow2_no_overflow(k as nat);
        lemma_bits_value_bound(s.subrange((i + 1) as int, (i + 1 + k) as int), k as nat);
    }
    proof {
        vstd::bits::lemma_u64_shl_is_mul(1, k as u64);
    }
    let p2: u64 = 1u64 << k as u64;
    assert(q as u128 * p2 as u128 <= 0xffff_ffff_ffff_ffff * 0xffff_ffff_ffff_ffff) by (nonlinear_arith)
        requires q <= 0xffff_ffff_ffff_ffffu64, p2 <= 0xffff_ffff_ffff_ffffu64;
    let x: u128 = q as u128 * p2 as u128 + low as u128;
    if x > u64::MAX as u128 {
        return None;
    }
    let x = x as u64;
    Some((x, i + 1 + k as usize))
}

proof fn lemma_bits_value_bound(s: Seq<bool>, w: nat)
    ensures
        bits_value(s, w) < pow2(w),
    decreases w,
{
    if w == 0 {
        vstd::arithmetic::power2::lemma2_to64();
    } else {
        lemma_bits_value_bound(s, (w - 1) as nat);
        lemma_pow2_unfold(w);
    }
}

} // verus!
