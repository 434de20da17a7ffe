//! A rainbow table stored with compressed delta encoding: sorted endpoints
//! as Rice-coded gaps in blocks, startpoints packed at a fixed width, and an
//! index of where each block starts.
use vstd::arithmetic::power2::pow2;
use vstd::prelude::*;

use crate::bits::{
    lemma_rice_prefix, lemma_rice_round_trip, rice_end, rice_readable, rice_value, bits_get, bits_push, bits_len, bits_new, bits_of, load_bits, lsb_bits, push_bits, rice_bits, rice_decode, rice_encode, Bits, MAX_BITS, lemma_lsb_bits_value,
};
use crate::chain_map::{slots_for, RainbowChain, RainbowChainMap};
use crate::error::CugparckError;
use crate::ctx::RainbowTableCtx;
use crate::table::{RainbowTable, SimpleTable};
use crate::CompressedPassword;

verus! {

/// The number of chains per block.
pub const BLOCK_SIZE: usize = 256;

/// The bits of a list of pairs, each pair as `a` bits of its first value
/// then `c` bits of its second, least significant first.
pub open spec fn packed_bits(pairs: Seq<(u64, u64)>, a: nat, c: nat) -> Seq<bool>
    decreases pairs.len(),
{
    if pairs.len() == 0 {
        seq![]
    } else {
        let p = pairs.last();
        packed_bits(pairs.drop_last(), a, c) + lsb_bits(p.0, a) + lsb_bits(p.1, c)
    }
}

/// The least `w` with `x < 2^w`.
pub open spec fn width_of(x: nat) -> nat
    decreases x,
{
    if x == 0 {
        0
    } else {
        1 + width_of(x / 2)
    }
}

proof fn lemma_packed_len(pairs: Seq<(u64, u64)>, a: nat, c: nat)
    ensures
        packed_bits(pairs, a, c).len() == pairs.len() * (a + c),
    decreases pairs.len(),
{
    if pairs.len() > 0 {
        lemma_packed_len(pairs.drop_last(), a, c);
        assert(pairs.len() * (a + c) == (pairs.len() - 1) * (a + c) + (a + c)) by (nonlinear_arith);
    }
}

/// Entry `i` of the packed pairs sits at `i * (a + c)`.
proof fn lemma_packed_at(pairs: Seq<(u64, u64)>, a: nat, c: nat, i: int)
    requires
        0 <= i < pairs.len(),
    ensures
        ({
            let s = packed_bits(pairs, a, c);
            let o = i * (a + c);
            &&& o + a + c <= s.len()
            &&& s.subrange(o, o + a) == lsb_bits(pairs[i].0, a)
            &&& s.subrange(o + a, o + a + c) == lsb_bits(pairs[i].1, c)
        }),
    decreases pairs.len(),
{
    let s = packed_bits(pairs, a, c);
    let t = pairs.drop_last();
    lemma_packed_len(pairs, a, c);
    lemma_packed_len(t, a, c);
    let o = i * (a + c);
    assert(o + a + c <= s.len()) by (nonlinear_arith)
        requires o == i * (a + c), 0 <= i < pairs.len(), s.len() == pairs.len() * (a + c);
    if i == pairs.len() - 1 {
        assert(o == t.len() * (a + c));
        assert(s.subrange(o, o + a) =~= lsb_bits(pairs[i].0, a));
        assert(s.subrange(o + a, o + a + c) =~= lsb_bits(pairs[i].1, c));
    } else {
        lemma_packed_at(t, a, c, i);
        let u = packed_bits(t, a, c);
        assert(o + a + c <= u.len()) by (nonlinear_arith)
            requires o == i * (a + c), 0 <= i < t.len(), u.len() == t.len() * (a + c);
        assert(s.subrange(o, o + a) =~= u.subrange(o, o + a));
        assert(s.subrange(o + a, o + a + c) =~= u.subrange(o + a, o + a + c));
    }
}

/// A list of pairs of integers packed at fixed widths.
pub struct Index {
    len: usize,
    entries: Bits,
    bit_address_size: usize,
    chain_number_size: usize,
    pairs: Ghost<Seq<(u64, u64)>>,
}

impl Index {
    /// The bits hold the pairs at the index's widths.
    pub closed spec fn wf(&self) -> bool {
        &&& self.bit_address_size <= 64
        &&& self.chain_number_size <= 64
        &&& self.len == self.pairs@.len()
        &&& bits_of(self.entries) == packed_bits(
            self.pairs@,
            self.bit_address_size as nat,
            self.chain_number_size as nat,
        )
        &&& forall|i: int|
            0 <= i < self.pairs@.len() ==> #[trigger] self.pairs@[i].0 < pow2(
                self.bit_address_size as nat,
            ) && self.pairs@[i].1 < pow2(self.chain_number_size as nat)
    }

    /// The entries, in order.
    pub closed spec fn view(&self) -> Seq<(u64, u64)> {
        self.pairs@
    }

    /// The width of the first value of an entry.
    pub closed spec fn first_width(&self) -> nat {
        self.bit_address_size as nat
    }

    /// The width of the second value of an entry.
    pub closed spec fn second_width(&self) -> nat {
        self.chain_number_size as nat
    }

    /// The number of bits the entries take.
    pub closed spec fn bit_len(&self) -> nat {
        bits_of(self.entries).len()
    }

    /// Creates an empty index whose entries take `bit_address_size` then
    /// `chain_number_size` bits.
    pub fn new(bit_address_size: usize, chain_number_size: usize) -> (r: Self)
        requires
            bit_address_size <= 64,
            chain_number_size <= 64,
        ensures
            r.wf(),
            r.view() == Seq::<(u64, u64)>::empty(),
            r.first_width() == bit_address_size,
            r.second_width() == chain_number_size,
    {
        Index {
            len: 0,
            entries: bits_new(),
            bit_address_size,
            chain_number_size,
            pairs: Ghost(Seq::empty()),
        }
    }

    /// The bits of the entries, in order.
    pub fn bits(&self) -> (r: Vec<bool>)
        requires
            self.wf(),
        ensures
            r@ == packed_bits(self.view(), self.first_width(), self.second_width()),
    {
        bits_to_vec(&self.entries)
    }

    /// The number of entries.
    pub fn len(&self) -> (r: usize)
        requires
            self.wf(),
        ensures
            r == self.view().len(),
    {
        self.len
    }

    /// Adds an entry.
    pub fn add_entry(&mut self, bit_address: u64, chain_number: u64)
        requires
            old(self).wf(),
            bit_address < pow2(old(self).first_width()),
            chain_number < pow2(old(self).second_width()),
            old(self).bit_len() + old(self).first_width() + old(self).second_width() <= MAX_BITS,
            old(self).view().len() < usize::MAX,
        ensures
            final(self).wf(),
            final(self).view() == old(self).view().push((bit_address, chain_number)),
            final(self).first_width() == old(self).first_width(),
            final(self).second_width() == old(self).second_width(),
            final(self).bit_len() == old(self).bit_len() + old(self).first_width()
                + old(self).second_width(),
    {
        let ghost old_pairs = self.pairs@;
        push_bits(&mut self.entries, bit_address, self.bit_address_size);
        push_bits(&mut self.entries, chain_number, self.chain_number_size);
        self.len = self.len + 1;
        self.pairs = Ghost(old_pairs.push((bit_address, chain_number)));
        proof {
            assert(self.pairs@.drop_last() =~= old_pairs);
        }
    }

    /// Returns entry `i`, if there is one.
    pub fn get_entry(&self, i: usize) -> (r: Option<(u64, u64)>)
        requires
            self.wf(),
        ensures
            r == (if i < self.view().len() {
                Some(self.view()[i as int])
            } else {
                None
            }),
    {
        if i >= self.len {
            return None;
        }
        let a = self.bit_address_size;
        let c = self.chain_number_size;
        proof {
            lemma_packed_at(self.pairs@, a as nat, c as nat, i as int);
            lemma_packed_len(self.pairs@, a as nat, c as nat);
        }
        let total = bits_len(&self.entries);
        let o = i * (a + c);
        let first = load_bits(&self.entries, o, a);
        let second = load_bits(&self.entries, o + a, c);
        proof {
            let p = self.pairs@[i as int];
            lemma_lsb_bits_value(p.0, a as nat);
            lemma_lsb_bits_value(p.1, c as nat);
            vstd::arithmetic::div_mod::lemma_small_mod(p.0 as nat, pow2(a as nat));
            vstd::arithmetic::div_mod::lemma_small_mod(p.1 as nat, pow2(c as nat));
        }
        Some((first, second))
    }
}

/// The bits of a bit-vector, in order.
pub fn bits_to_vec(v: &Bits) -> (r: Vec<bool>)
    ensures
        r@ == bits_of(*v),
{
    let len = bits_len(v);
    let mut out: Vec<bool> = Vec::new();
    let mut i: usize = 0;
    while i < len
        invariant
            0 <= i <= len,
            len == bits_of(*v).len(),
            out@ == bits_of(*v).take(i as int),
        decreases len - i,
    {
        out.push(bits_get(v, i));
        i += 1;
        assert(out@ =~= bits_of(*v).take(i as int));
    }
    assert(bits_of(*v).take(i as int) =~= bits_of(*v));
    out
}

/// The least `w` with `x < 2^w`.
pub fn bit_width(x: u64) -> (r: usize)
    ensures
        r == width_of(x as nat),
        r <= 64,
        x < pow2(r as nat),
{
    proof {
        lemma_width_pow(x as nat);
        vstd::arithmetic::power2::lemma2_to64();
        lemma_width_le(x as nat, 64);
    }
    let mut w: usize = 0;
    let mut y: u64 = x;
    while y > 0
        invariant
            w + width_of(y as nat) == width_of(x as nat),
            width_of(x as nat) <= 64,
        decreases y,
    {
        y = y / 2;
        w += 1;
    }
    w
}

proof fn lemma_width_pow(x: nat)
    ensures
        x < pow2(width_of(x)),
    decreases x,
{
    if x == 0 {
        vstd::arithmetic::power2::lemma2_to64();
    } else {
        lemma_width_pow(x / 2);
        vstd::arithmetic::power2::lemma_pow2_unfold(width_of(x));
    }
}

proof fn lemma_width_monotone(x: nat, y: nat)
    requires
        x <= y,
    ensures
        width_of(x) <= width_of(y),
    decreases y,
{
    if x > 0 {
        lemma_width_monotone(x / 2, y / 2);
    }
}

proof fn lemma_width_le(x: nat, w: nat)
    requires
        x < pow2(w),
    ensures
        width_of(x) <= w,
    decreases x,
{
    if x > 0 {
        if w == 0 {
            vstd::arithmetic::power2::lemma2_to64();
        } else {
            vstd::arithmetic::power2::lemma_pow2_unfold(w);
            lemma_width_le(x / 2, (w - 1) as nat);
        }
    }
}

/// Relies on `slice::sort_unstable_by_key`: the same chains, ordered by endpoint.
#[verifier::external_body]
fn sort_by_endpoint(v: &mut Vec<RainbowChain>)
    ensures
        final(v)@.len() == old(v)@.len(),
        final(v)@.to_multiset() == old(v)@.to_multiset(),
        forall|i: int, j: int|
            0 <= i < j < final(v)@.len() ==> final(v)@[i].endpoint <= final(v)@[j].endpoint,
{
    v.sort_unstable_by_key(|chain| chain.endpoint)
}

/// Where block `j` of `l` starts in a space of `n` counters: the least
/// integer at or above `j * n / l`, so that the block holds the endpoints
/// `e` with `e * l / n == j`.
pub open spec fn block_start(n: nat, l: nat, j: nat) -> nat {
    ((j * n + l - 1) / (l as int)) as nat
}

/// A block starts at or below an endpoint exactly when `j * n <= e * l`.
proof fn lemma_block_start(n: nat, l: nat, j: nat, e: nat)
    requires
        l >= 1,
    ensures
        (block_start(n, l, j) <= e) == (j * n <= e * l),
{
    let x: int = j * n + l - 1;
    vstd::arithmetic::div_mod::lemma_fundamental_div_mod(x, l as int);
    vstd::arithmetic::div_mod::lemma_mod_bound(x, l as int);
    let q = x / (l as int);
    let r = x % (l as int);
    assert((q <= e) == (j * n <= e * l)) by (nonlinear_arith)
        requires x == l * q + r, 0 <= r < l, x == j * n + l - 1, l >= 1;
}

/// Blocks start in order, the first at 0 and the one after the last at `n`.
proof fn lemma_block_starts(n: nat, l: nat, j: nat)
    requires
        l >= 1,
        j <= l,
    ensures
        block_start(n, l, j) <= block_start(n, l, j + 1),
        block_start(n, l, j) <= n,
        block_start(n, l, l) == n,
        block_start(n, l, 0) == 0,
{
    let a = block_start(n, l, j);
    let b = block_start(n, l, j + 1);
    lemma_block_start(n, l, j, b);
    assert(j * n <= (j + 1) * n) by (nonlinear_arith);
    lemma_block_start(n, l, j + 1, b);
    lemma_block_start(n, l, j, n);
    assert(j * n <= n * l) by (nonlinear_arith) requires j <= l;
    lemma_block_start(n, l, l, n);
    assert(l * n <= n * l) by (nonlinear_arith);
    if block_start(n, l, l) < n {
        let c = block_start(n, l, l);
        lemma_block_start(n, l, l, c);
        assert(l * n <= c * l);
        assert(n <= c) by (nonlinear_arith) requires l * n <= c * l, l >= 1;
    }
    lemma_block_start(n, l, 0, 0);
    assert(0 * n <= 0 * l) by (nonlinear_arith);
}

/// Where block `j` of `l` starts in a space of `n` counters.
fn block_start_of(n: u64, l: usize, j: usize) -> (r: u64)
    requires
        l >= 1,
        j <= l,
    ensures
        r == block_start(n as nat, l as nat, j as nat),
        r <= n,
{
    proof {
        lemma_block_starts(n as nat, l as nat, j as nat);
        assert(j as nat * n as nat <= l as nat * 0xffff_ffff_ffff_ffff) by (nonlinear_arith)
            requires j <= l, n <= 0xffff_ffff_ffff_ffffu64;
        assert(l as nat * 0xffff_ffff_ffff_ffff <= 0xffff_ffff_ffff_ffff * 0xffff_ffff_ffff_ffff) by (nonlinear_arith)
            requires l <= 0xffff_ffff_ffff_ffff;
    }
    let x: u128 = j as u128 * n as u128 + l as u128 - 1;
    (x / l as u128) as u64
}

/// Where the chains of block `j` end: where the next block's chains start,
/// or at `m` for the last block.
pub open spec fn block_end(entries: Seq<(u64, u64)>, j: int, m: nat) -> nat {
    if j + 1 < entries.len() {
        entries[j + 1].1 as nat
    } else {
        m
    }
}

/// The code of chain `x`, in block `j`, can be read at its position and
/// gives the chain's endpoint: from the block's start for the first chain
/// of a block, from the previous endpoint plus one otherwise; the next
/// chain's code follows it, and the endpoint lies in the block's range.
pub open spec fn code_ok(
    e: Seq<bool>,
    entries: Seq<(u64, u64)>,
    chains: Seq<RainbowChain>,
    pos: Seq<nat>,
    k: nat,
    n: nat,
    l: nat,
    j: int,
    x: int,
) -> bool {
    let first = entries[j].1 as int;
    &&& rice_readable(e, pos[x], k)
    &&& chains[x].endpoint >= block_start(n, l, j as nat)
    &&& (j < l ==> chains[x].endpoint < block_start(n, l, (j + 1) as nat))
    &&& (x == first ==> pos[x] == entries[j].0 && chains[x].endpoint == block_start(n, l, j as nat) + rice_value(
        e,
        pos[x],
        k,
    ))
    &&& (x > first ==> chains[x].endpoint == chains[x - 1].endpoint + rice_value(e, pos[x], k) + 1)
    &&& (x + 1 < block_end(entries, j, chains.len()) ==> pos[x + 1] == rice_end(e, pos[x], k))
}

/// The endpoint bits hold the chains block by block as the index says:
/// block `j` starts at bit `entries[j].0` with chain `entries[j].1`, and
/// the endpoints increase.
pub open spec fn stream_ok(
    e: Seq<bool>,
    entries: Seq<(u64, u64)>,
    chains: Seq<RainbowChain>,
    pos: Seq<nat>,
    k: nat,
    n: nat,
    l: nat,
) -> bool {
    &&& pos.len() == chains.len()
    &&& entries.len() >= 1
    &&& entries[0].1 == 0
    &&& forall|j: int| 0 <= j < entries.len() ==> #[trigger] entries[j].1 <= chains.len()
    &&& forall|j: int| 0 <= j && j + 1 < entries.len() ==> entries[j].1 <= #[trigger] entries[j + 1].1
    &&& forall|x: int| 0 <= x && x + 1 < chains.len() ==> chains[x].endpoint < #[trigger] chains[x + 1].endpoint
    &&& forall|j: int, x: int|
        0 <= j < entries.len() && entries[j].1 <= x < block_end(entries, j, chains.len())
            ==> #[trigger] code_ok(e, entries, chains, pos, k, n, l, j, x)
}

/// Opening a new block, at the end of the bits and of the chains, keeps the stream consistent.
proof fn lemma_stream_new_block(
    e: Seq<bool>,
    entries: Seq<(u64, u64)>,
    chains: Seq<RainbowChain>,
    pos: Seq<nat>,
    k: nat,
    n: nat,
    l: nat,
)
    requires
        stream_ok(e, entries, chains, pos, k, n, l),
        e.len() <= u64::MAX,
        chains.len() <= u64::MAX,
    ensures
        stream_ok(e, entries.push((e.len() as u64, chains.len() as u64)), chains, pos, k, n, l),
{
    let ne = entries.push((e.len() as u64, chains.len() as u64));
    assert forall|j: int, x: int|
        0 <= j < ne.len() && ne[j].1 <= x < block_end(ne, j, chains.len()) implies #[trigger] code_ok(
        e,
        ne,
        chains,
        pos,
        k,
        n,
        l,
        j,
        x,
    ) by {
        assert(j < entries.len());
        assert(ne[j] == entries[j]);
        assert(block_end(ne, j, chains.len()) == block_end(entries, j, chains.len()));
        assert(code_ok(e, entries, chains, pos, k, n, l, j, x));
    }
    assert forall|j: int| 0 <= j && j + 1 < ne.len() implies ne[j].1 <= #[trigger] ne[j + 1].1 by {
        if j + 1 < entries.len() {
            assert(entries[j].1 <= entries[j + 1].1);
        }
    }
}

/// Appending the code of one more chain to the last block keeps the stream consistent.
proof fn lemma_stream_append(
    e: Seq<bool>,
    entries: Seq<(u64, u64)>,
    chains: Seq<RainbowChain>,
    pos: Seq<nat>,
    k: nat,
    n: nat,
    l: nat,
    c: RainbowChain,
    d: u64,
)
    requires
        stream_ok(e, entries, chains, pos, k, n, l),
        ({
            let j = entries.len() - 1;
            let first = entries[j].1;
            &&& chains.len() > first ==> rice_end(e, pos[chains.len() - 1], k) == e.len()
            &&& chains.len() == first ==> entries[j].0 == e.len()
            &&& chains.len() > 0 ==> chains.last().endpoint < c.endpoint
            &&& c.endpoint >= block_start(n, l, j as nat)
            &&& (j < l ==> c.endpoint < block_start(n, l, (j + 1) as nat))
            &&& (chains.len() == first ==> c.endpoint == block_start(n, l, j as nat) + d)
            &&& (chains.len() > first ==> c.endpoint == chains.last().endpoint + d + 1)
        }),
    ensures
        stream_ok(e + rice_bits(d, k), entries, chains.push(c), pos.push(e.len()), k, n, l),
        rice_end(e + rice_bits(d, k), e.len(), k) == (e + rice_bits(d, k)).len(),
{
    let t = rice_bits(d, k);
    let e2 = e + t;
    let c2 = chains.push(c);
    let p2 = pos.push(e.len());
    let last = entries.len() - 1;
    lemma_rice_round_trip(d, k, e, Seq::empty());
    assert(e + t + Seq::<bool>::empty() =~= e2);
    assert forall|j: int, x: int|
        0 <= j < entries.len() && entries[j].1 <= x < block_end(entries, j, c2.len()) implies #[trigger] code_ok(
        e2,
        entries,
        c2,
        p2,
        k,
        n,
        l,
        j,
        x,
    ) by {
        if x < chains.len() {
            if j < last {
                assert(block_end(entries, j, c2.len()) == block_end(entries, j, chains.len()));
            }
            assert(code_ok(e, entries, chains, pos, k, n, l, j, x));
            lemma_rice_prefix(e, t, pos[x], k);
            assert(c2[x] == chains[x]);
            assert(p2[x] == pos[x]);
            if x > entries[j].1 {
                assert(c2[x - 1] == chains[x - 1]);
            }
            if x + 1 < chains.len() {
                assert(p2[x + 1] == pos[x + 1]);
            }
        } else {
            assert(x == chains.len());
            if j < last {
                assert(entries[j].1 <= entries[j + 1].1);
                assert(false);
            }
            assert(j == last);
            if x > entries[j].1 {
                assert(c2[x - 1] == chains.last());
            }
        }
    }
    assert forall|x: int| 0 <= x && x + 1 < c2.len() implies c2[x].endpoint < #[trigger] c2[x + 1].endpoint by {
        if x + 1 < chains.len() {
            assert(chains[x].endpoint < chains[x + 1].endpoint);
        } else {
            assert(c2[x] == chains.last());
        }
    }
}

/// The chains of a list as a map from endpoint to startpoint.
pub open spec fn chains_map(chains: Seq<RainbowChain>) -> Map<u64, u64> {
    Map::new(
        |e: u64| exists|x: int| 0 <= x < chains.len() && chains[x].endpoint == e,
        |e: u64| chains[choose|x: int| 0 <= x < chains.len() && chains[x].endpoint == e].startpoint,
    )
}

/// In a list with increasing endpoints, each chain is the map's entry for its endpoint.
pub proof fn lemma_chains_map_at(chains: Seq<RainbowChain>, i: int)
    requires
        0 <= i < chains.len(),
        forall|a: int, b: int| 0 <= a < b < chains.len() ==> chains[a].endpoint < chains[b].endpoint,
    ensures
        chains_map(chains).contains_key(chains[i].endpoint),
        chains_map(chains)[chains[i].endpoint] == chains[i].startpoint,
{
    let e = chains[i].endpoint;
    let w = choose|x: int| 0 <= x < chains.len() && chains[x].endpoint == e;
    assert(w == i);
}

/// Every chain lies in some block of the index.
proof fn lemma_block_of(entries: Seq<(u64, u64)>, m: nat, x: int, j: int)
    requires
        0 <= j < entries.len(),
        entries[j].1 <= x < m,
        forall|i: int| 0 <= i && i + 1 < entries.len() ==> entries[i].1 <= #[trigger] entries[i + 1].1,
    ensures
        exists|jb: int| 0 <= jb < entries.len() && entries[jb].1 <= x < #[trigger] block_end(entries, jb, m),
    decreases entries.len() - j,
{
    if x >= block_end(entries, j, m) {
        lemma_block_of(entries, m, x, j + 1);
    }
}

/// The block a search picks for an endpoint, `e * l / n`, is the block that holds it.
proof fn lemma_block_index(e: u64, n: u64, l: usize, jb: int, block: usize)
    requires
        n >= 1,
        l >= 1,
        e < n,
        0 <= jb <= l,
        e >= block_start(n as nat, l as nat, jb as nat),
        jb < l ==> e < block_start(n as nat, l as nat, (jb + 1) as nat),
        block == (e as nat * l as nat) / n as nat,
    ensures
        block == jb,
{
    lemma_block_start(n as nat, l as nat, jb as nat, e as nat);
    lemma_block_starts(n as nat, l as nat, jb as nat);
    let x = e as nat * l as nat;
    vstd::arithmetic::div_mod::lemma_fundamental_div_mod(x as int, n as int);
    vstd::arithmetic::div_mod::lemma_mod_bound(x as int, n as int);
    let q = x / n as nat;
    if jb < l {
        lemma_block_start(n as nat, l as nat, (jb + 1) as nat, e as nat);
        assert(q == jb) by (nonlinear_arith)
            requires x == n * q + x % (n as nat), 0 <= x % (n as nat) < n, jb * n <= x, x < (jb + 1) * n, n >= 1;
    } else {
        assert(false);
    }
}

/// The chain numbers of the index do not decrease.
proof fn lemma_entries_ordered(entries: Seq<(u64, u64)>, a: int, b: int)
    requires
        0 <= a <= b < entries.len(),
        forall|j: int| 0 <= j && j + 1 < entries.len() ==> entries[j].1 <= #[trigger] entries[j + 1].1,
    ensures
        entries[a].1 <= entries[b].1,
    decreases b - a,
{
    if a < b {
        lemma_entries_ordered(entries, a, b - 1);
        assert(entries[b - 1].1 <= entries[(b - 1) + 1].1);
    }
}

/// Chains with distinct endpoints, sorted by endpoint, have strictly
/// increasing endpoints.
proof fn lemma_sorted_distinct(sorted: Seq<RainbowChain>, orig: Seq<RainbowChain>)
    requires
        sorted.to_multiset() == orig.to_multiset(),
        forall|i: int, j: int| 0 <= i < j < sorted.len() ==> sorted[i].endpoint <= sorted[j].endpoint,
        forall|i: int, j: int| 0 <= i < j < orig.len() ==> orig[i].endpoint != orig[j].endpoint,
    ensures
        forall|x: int| 0 <= x && x + 1 < sorted.len() ==> sorted[x].endpoint < #[trigger] sorted[x + 1].endpoint,
{
    assert(orig.no_duplicates()) by {
        assert forall|i: int, j: int| 0 <= i < orig.len() && 0 <= j < orig.len() && i != j implies orig[i] != orig[j] by {
            if i < j {
                assert(orig[i].endpoint != orig[j].endpoint);
            } else {
                assert(orig[j].endpoint != orig[i].endpoint);
            }
        }
    }
    orig.lemma_multiset_has_no_duplicates();
    sorted.lemma_multiset_has_no_duplicates_conv();
    sorted.to_multiset_ensures();
    orig.to_multiset_ensures();
    assert forall|x: int| 0 <= x && x + 1 < sorted.len() implies sorted[x].endpoint < #[trigger] sorted[x + 1].endpoint by {
        if sorted[x].endpoint == sorted[x + 1].endpoint {
            assert(sorted[x] != sorted[x + 1]);
            assert(sorted.contains(sorted[x]));
            assert(sorted.contains(sorted[x + 1]));
            assert(orig.to_multiset().count(sorted[x]) > 0);
            assert(orig.to_multiset().count(sorted[x + 1]) > 0);
            assert(orig.contains(sorted[x]));
            assert(orig.contains(sorted[x + 1]));
            let a = choose|a: int| 0 <= a < orig.len() && orig[a] == sorted[x];
            let b = choose|b: int| 0 <= b < orig.len() && orig[b] == sorted[x + 1];
            if a < b {
                assert(orig[a].endpoint != orig[b].endpoint);
            } else {
                assert(orig[b].endpoint != orig[a].endpoint);
            }
        }
    }
}

/// Endpoints that increase from each chain to the next increase throughout.
proof fn lemma_increasing(chains: Seq<RainbowChain>)
    requires
        forall|x: int| 0 <= x && x + 1 < chains.len() ==> chains[x].endpoint < #[trigger] chains[x + 1].endpoint,
    ensures
        forall|x: int, y: int| 0 <= x < y < chains.len() ==> chains[x].endpoint < chains[y].endpoint,
{
    assert forall|x: int, y: int| 0 <= x < y < chains.len() implies chains[x].endpoint < chains[y].endpoint by {
        lemma_increasing_from(chains, x, y);
    }
}

proof fn lemma_increasing_from(chains: Seq<RainbowChain>, x: int, y: int)
    requires
        forall|z: int| 0 <= z && z + 1 < chains.len() ==> chains[z].endpoint < #[trigger] chains[z + 1].endpoint,
        0 <= x < y < chains.len(),
    ensures
        chains[x].endpoint < chains[y].endpoint,
    decreases y - x,
{
    if y > x + 1 {
        lemma_increasing_from(chains, x, y - 1);
        assert(chains[y - 1].endpoint < chains[(y - 1) + 1].endpoint);
    } else {
        assert(chains[x].endpoint < chains[x + 1].endpoint);
    }
}

/// The most bits that the Rice code of a gap below `n` takes with parameter `k`, plus one.
pub open spec fn code_bound(n: u64, k: u8) -> nat {
    n as nat / pow2(k as nat) + k as nat + 2
}

/// A rainbow table using compressed delta encoding.
pub struct CompressedTable {
    ctx: RainbowTableCtx,
    index: Index,
    startpoints: Index,
    endpoints: Bits,
    l: usize,
    k: u8,
    m: usize,
    password_bits: u8,
    stored: Ghost<Seq<RainbowChain>>,
    positions: Ghost<Seq<nat>>,
}

impl CompressedTable {
    /// The parts of the table agree with each other.
    pub closed spec fn wf(&self) -> bool {
        &&& self.ctx.wf()
        &&& 1 <= self.k <= 63
        &&& 1 <= self.l < usize::MAX
        &&& self.index.wf()
        &&& self.index.view().len() == self.l + 1
        &&& self.startpoints.wf()
        &&& self.startpoints.view().len() == self.m
        &&& self.startpoints.first_width() == self.password_bits
        &&& self.startpoints.second_width() == 0
        &&& self.password_bits <= 64
        &&& forall|j: int|
            0 <= j <= self.l ==> #[trigger] self.index.view()[j].1 <= self.m
                && self.index.view()[j].0 <= bits_of(self.endpoints).len()
        &&& bits_of(self.endpoints).len() <= MAX_BITS
        &&& forall|x: int| 0 <= x < self.m ==> #[trigger] self.stored@[x].endpoint < self.ctx.n
        &&& self.stored@.len() == self.m
        &&& stream_ok(
            bits_of(self.endpoints),
            self.index.view(),
            self.stored@,
            self.positions@,
            self.k as nat,
            self.ctx.n as nat,
            self.l as nat,
        )
        &&& forall|x: int|
            0 <= x < self.m ==> #[trigger] self.startpoints.view()[x] == (
                self.stored@[x].startpoint,
                0u64,
            )
    }

    /// The chains stored, in endpoint order.
    pub closed spec fn stored_chains(&self) -> Seq<RainbowChain> {
        self.stored@
    }

    /// Where the code of each stored chain starts in the endpoint bits.
    pub closed spec fn code_positions(&self) -> Seq<nat> {
        self.positions@
    }

    /// The number of 256-chain blocks; the index has one more entry.
    pub closed spec fn block_count(&self) -> nat {
        self.l as nat
    }

    /// How the table stores its chains: sorted by strictly increasing
    /// endpoint; block `j` starts at bit `index_entries()[j].0` with chain
    /// `index_entries()[j].1` and covers the endpoints `e` with
    /// `e * l / n == j`, from `block_start(n, l, j)`; its first gap is from
    /// that start, each later one from the previous endpoint plus one,
    /// each Rice-coded with parameter `k`; startpoints follow at a fixed
    /// width, least significant bit first.
    pub proof fn lemma_layout(&self)
        requires
            self.wf(),
        ensures
            self.stored_chains().len() == self.chain_count(),
            self.index_entries().len() == self.block_count() + 1,
            self.block_count() >= 1,
            forall|x: int, y: int|
                0 <= x < y < self.stored_chains().len() ==> self.stored_chains()[x].endpoint
                    < self.stored_chains()[y].endpoint,
            stream_ok(
                self.endpoint_seq(),
                self.index_entries(),
                self.stored_chains(),
                self.code_positions(),
                self.rice_k() as nat,
                self.context().n as nat,
                self.block_count(),
            ),
            forall|x: int| 0 <= x < self.stored_chains().len() ==> #[trigger] self.stored_chains()[x].endpoint < self.context().n,
    {
        lemma_increasing(self.stored@);
    }

    /// The stored endpoint bits.
    pub closed spec fn endpoint_seq(&self) -> Seq<bool> {
        bits_of(self.endpoints)
    }

    /// The number of chains.
    pub closed spec fn chain_count(&self) -> nat {
        self.m as nat
    }

    /// The context.
    pub closed spec fn context(&self) -> RainbowTableCtx {
        self.ctx
    }

    /// The width of a stored startpoint.
    pub closed spec fn startpoint_width(&self) -> nat {
        self.password_bits as nat
    }

    /// Builds a compressed table from a simple table, with Rice parameter
    /// `k`: the chains sorted by endpoint, split into `l + 1` blocks of
    /// endpoints by value (`l` is the number of 256-chain blocks), each block
    /// stored as the gap from its first value and then the gaps minus one.
    #[verifier::rlimit(100)]
    pub fn from_rainbow_table(table: &SimpleTable, k: u8) -> (r: Result<Self, CugparckError>)
        requires
            table.table_wf(),
            1 <= k <= 63,
            table.chain_count() <= usize::MAX / 1024,
        ensures
            r matches Ok(c) ==> {
                &&& c.wf()
                &&& c.context().same_as(&table.context())
                &&& c.chain_count() == table.chain_count()
                &&& c.rice_k() == k
                &&& c.startpoint_width() >= width_of((table.context().m0 - 1) as nat)
                &&& chains_map(c.stored_chains()) == table.chain_map()
                &&& c.table_wf()
                &&& c.chain_map() == table.chain_map()
            },
            r matches Err(e) ==> e == CugparckError::OutOfMemory,
            table.chain_count() * code_bound(table.context().n, k) <= MAX_BITS ==> r is Ok,
    {
        let ctx = table.ctx();
        proof {
            table.lemma_table_wf();
        }
        let mut chains = table.chains();
        let ghost unsorted = chains@;
        sort_by_endpoint(&mut chains);
        proof {
            lemma_sorted_distinct(chains@, unsorted);
            chains@.to_multiset_ensures();
            unsorted.to_multiset_ensures();
            assert forall|x: int| 0 <= x < chains@.len() implies #[trigger] chains@[x].endpoint < ctx.n by {
                assert(chains@.contains(chains@[x]));
                assert(unsorted.to_multiset().count(chains@[x]) > 0);
                assert(unsorted.contains(chains@[x]));
                let w = choose|w: int| 0 <= w < unsorted.len() && unsorted[w] == chains@[x];
                assert(table.chain_map().contains_key(unsorted[w].endpoint));
            }
        }
        let ghost cb = code_bound(ctx.n, k);
        let ghost fits = chains@.len() * cb <= MAX_BITS;
        assert(fits == (table.chain_count() * code_bound(table.context().n, k) <= MAX_BITS));
        let m_all = chains.len();
        let blocks = if m_all == 0 {
            1
        } else {
            (m_all - 1) / BLOCK_SIZE + 1
        };
        let ghost nn = ctx.n as nat;
        // wide enough for every startpoint below m0, and for those stored
        let mut widest: u64 = ctx.m0 - 1;
        let mut z: usize = 0;
        while z < chains.len()
            invariant
                0 <= z <= chains@.len(),
                widest >= ctx.m0 - 1,
                forall|y: int| 0 <= y < z ==> #[trigger] chains@[y].startpoint <= widest,
            decreases chains@.len() - z,
        {
            if chains[z].startpoint > widest {
                widest = chains[z].startpoint;
            }
            z += 1;
        }
        let password_bits = bit_width(widest);
        proof {
            lemma_width_monotone((ctx.m0 - 1) as nat, widest as nat);
        }

        // the endpoints, block by block
        let mut endpoints = bits_new();
        let mut kept: Vec<RainbowChain> = Vec::new();
        let mut entries: Vec<(u64, u64)> = Vec::new();
        let ghost mut pos: Seq<nat> = Seq::empty();
        let mut i: usize = 0;
        let mut j: usize = 0;
        while j <= blocks
            invariant
                1 <= blocks < usize::MAX,
                j <= blocks + 1,
                i <= chains@.len(),
                entries@.len() == j,
                kept@.len() <= i,
                1 <= k <= 63,
                widest < pow2(password_bits as nat),
                forall|x: int| 0 <= x < entries@.len() ==> #[trigger] entries@[x].1 <= kept@.len()
                    && entries@[x].0 <= bits_of(endpoints).len(),
                bits_of(endpoints).len() <= MAX_BITS,
                forall|x: int| 0 <= x < kept@.len() ==> #[trigger] kept@[x].startpoint <= widest,
                forall|x: int| 0 <= x < chains@.len() ==> #[trigger] chains@[x].startpoint <= widest,
                forall|x: int| 0 <= x < kept@.len() ==> #[trigger] chains@.contains(kept@[x]),
                kept@ == chains@.take(i as int),
                cb == code_bound(ctx.n, k),
                fits == (chains@.len() * cb <= MAX_BITS),
                fits == (table.chain_count() * code_bound(table.context().n, k) <= MAX_BITS),
                fits ==> bits_of(endpoints).len() <= i * cb,
                forall|x: int| 0 <= x < chains@.len() ==> #[trigger] chains@[x].endpoint < ctx.n,
                forall|x: int| 0 <= x && x + 1 < chains@.len() ==> chains@[x].endpoint < #[trigger] chains@[x + 1].endpoint,
                i < chains@.len() && j > 0 ==> chains@[i as int].endpoint >= block_start(nn, blocks as nat, j as nat),
                nn == ctx.n,
                j == blocks + 1 ==> i == chains@.len(),
                j == 0 ==> kept@.len() == 0 && bits_of(endpoints).len() == 0 && pos.len() == 0,
                j > 0 ==> stream_ok(bits_of(endpoints), entries@, kept@, pos, k as nat, nn, blocks as nat),
                j > 0 && kept@.len() > entries@[j - 1].1 ==> rice_end(bits_of(endpoints), pos[kept@.len() - 1], k as nat) == bits_of(endpoints).len(),
                0 < j <= blocks && kept@.len() > 0 ==> kept@.last().endpoint < block_start(nn, blocks as nat, j as nat),
            decreases blocks + 1 - j,
        {
            let ghost old_entries = entries@;
            entries.push((bits_len(&endpoints) as u64, kept.len() as u64));
            proof {
                if j == 0 {
                    assert(stream_ok(bits_of(endpoints), entries@, kept@, pos, k as nat, nn, blocks as nat));
                } else {
                    lemma_stream_new_block(bits_of(endpoints), old_entries, kept@, pos, k as nat, nn, blocks as nat);
                    assert(old_entries.push((bits_of(endpoints).len() as u64, kept@.len() as u64)) == entries@);
                }
            }
            let first_value: u64 = block_start_of(ctx.n, blocks, j);
            let next_start: u64 = if j < blocks {
                block_start_of(ctx.n, blocks, j + 1)
            } else {
                0
            };
            proof {
                lemma_block_starts(nn, blocks as nat, j as nat);
            }
            let mut first = true;
            let mut last: u64 = first_value;
            while i < chains.len() && (j == blocks || chains[i].endpoint < next_start)
                invariant
                    i <= chains@.len(),
                    kept@.len() <= i,
                    1 <= k <= 63,
                    j <= blocks,
                    entries@.len() == j + 1,
                    nn == ctx.n,
                    first_value == block_start(nn, blocks as nat, j as nat),
                    j < blocks ==> next_start == block_start(nn, blocks as nat, (j + 1) as nat),
                    j < blocks ==> first_value <= next_start,
                    bits_of(endpoints).len() <= MAX_BITS,
                    forall|x: int| 0 <= x < entries@.len() ==> #[trigger] entries@[x].1 <= kept@.len()
                        && entries@[x].0 <= bits_of(endpoints).len(),
                    forall|x: int| 0 <= x < kept@.len() ==> #[trigger] kept@[x].startpoint <= widest,
                    forall|x: int| 0 <= x < chains@.len() ==> #[trigger] chains@[x].startpoint <= widest,
                    forall|x: int| 0 <= x < kept@.len() ==> #[trigger] chains@.contains(kept@[x]),
                    kept@ == chains@.take(i as int),
                    cb == code_bound(ctx.n, k),
                    fits == (chains@.len() * cb <= MAX_BITS),
                    fits == (table.chain_count() * code_bound(table.context().n, k) <= MAX_BITS),
                fits == (table.chain_count() * code_bound(table.context().n, k) <= MAX_BITS),
                    fits ==> bits_of(endpoints).len() <= i * cb,
                    forall|x: int| 0 <= x < chains@.len() ==> #[trigger] chains@[x].endpoint < ctx.n,
                cb == code_bound(ctx.n, k),
                fits == (chains@.len() * cb <= MAX_BITS),
                fits == (table.chain_count() * code_bound(table.context().n, k) <= MAX_BITS),
                fits ==> bits_of(endpoints).len() <= i * cb,
                forall|x: int| 0 <= x < chains@.len() ==> #[trigger] chains@[x].endpoint < ctx.n,
                    forall|x: int| 0 <= x && x + 1 < chains@.len() ==> chains@[x].endpoint < #[trigger] chains@[x + 1].endpoint,
                    i < chains@.len() ==> chains@[i as int].endpoint >= first_value,
                    stream_ok(bits_of(endpoints), entries@, kept@, pos, k as nat, nn, blocks as nat),
                    first <==> kept@.len() == entries@[j as int].1,
                    first ==> entries@[j as int].0 == bits_of(endpoints).len() && last == first_value,
                    !first ==> rice_end(bits_of(endpoints), pos[kept@.len() - 1], k as nat) == bits_of(endpoints).len(),
                    !first ==> last == kept@.last().endpoint,
                    first && kept@.len() > 0 ==> kept@.last().endpoint < first_value,
                    j < blocks && kept@.len() > 0 ==> kept@.last().endpoint < next_start,
                decreases chains@.len() - i,
            {
                let chain = chains[i];
                let e = chain.endpoint;
                proof {
                    if !first {
                        assert(kept@.last() == chains@[i - 1]);
                        assert(chains@[i - 1].endpoint < chains@[(i - 1) + 1].endpoint);
                    }
                }
                let d: u64 = if first {
                    e - first_value
                } else {
                    e - last - 1
                };
                proof {
                    vstd::arithmetic::power2::lemma_pow2_pos(k as nat);
                    vstd::bits::lemma_u64_shr_is_div(d, k as u64);
                    assert(d < ctx.n);
                    vstd::arithmetic::div_mod::lemma_div_is_ordered(d as int, ctx.n as int, pow2(k as nat) as int);
                    if fits {
                        assert((i + 1) * cb <= chains@.len() * cb) by (nonlinear_arith)
                            requires i < chains@.len();
                        assert(i * cb + cb == (i + 1) * cb) by (nonlinear_arith);
                    }
                }
                let room = MAX_BITS - bits_len(&endpoints);
                if (d >> k as u64) >= room as u64 || room as u64 - (d >> k as u64) <= k as u64 + 1 {
                    proof {
                        if fits {
                            let q = d as nat / pow2(k as nat);
                            assert(q <= ctx.n as nat / pow2(k as nat));
                            assert(room as nat >= cb);
                            assert(false);
                        }
                    }
                    return Err(CugparckError::OutOfMemory);
                }
                proof {
                    vstd::bits::lemma_u64_shr_is_div(d, k as u64);
                    if !first {
                        assert(code_ok(bits_of(endpoints), entries@, kept@, pos, k as nat, nn, blocks as nat, j as int, kept@.len() - 1));
                    }
                    lemma_stream_append(bits_of(endpoints), entries@, kept@, pos, k as nat, nn, blocks as nat, chain, d);
                }
                let ghost before = bits_of(endpoints);
                rice_encode(d, k, &mut endpoints);
                proof {
                    pos = pos.push(before.len());
                }
                kept.push(chain);
                proof {
                    assert(chains@.contains(chain)) by {
                        assert(chains@[i as int] == chain);
                    }
                    assert forall|x: int| 0 <= x < kept@.len() implies #[trigger] chains@.contains(kept@[x]) by {
                        if x < kept@.len() - 1 {
                            assert(kept@[x] == kept@.drop_last()[x]);
                        }
                    }
                    assert(kept@ =~= chains@.take(i + 1));
                    if i + 1 < chains@.len() {
                        assert(chains@[i as int].endpoint < chains@[i + 1].endpoint);
                    }
                }
                first = false;
                last = e;
                i += 1;
            }
            j += 1;
        }

        // the index
        let m = kept.len();
        assert(m <= chains@.len());
        assert(chains@.len() <= usize::MAX / 1024);
        assert((blocks + 1) * 128 <= MAX_BITS) by (nonlinear_arith)
            requires
                blocks == if m_all == 0 { 1 } else { (m_all - 1) / 256 + 1 },
                m_all == chains@.len(),
                m_all <= usize::MAX / 1024,
                usize::MAX >= 0xffff_ffff,
                MAX_BITS == usize::MAX / 8;
        assert(m * 64 <= MAX_BITS) by (nonlinear_arith)
            requires m <= usize::MAX / 1024, MAX_BITS == usize::MAX / 8;
        let address_bits = bit_width(bits_len(&endpoints) as u64);
        let chain_bits = bit_width(m as u64);
        let mut index = Index::new(address_bits, chain_bits);
        let mut x: usize = 0;
        while x < entries.len()
            invariant
                0 <= x <= entries@.len(),
                index.wf(),
                index.first_width() == address_bits,
                index.second_width() == chain_bits,
                index.view().len() == x,
                index.view() == entries@.take(x as int),
                forall|y: int| 0 <= y < entries@.len() ==> #[trigger] entries@[y].1 <= m
                    && entries@[y].0 <= bits_of(endpoints).len(),
                bits_of(endpoints).len() < pow2(address_bits as nat),
                m < pow2(chain_bits as nat),
                index.bit_len() == x * (address_bits + chain_bits),
                entries@.len() == blocks + 1,
                blocks < usize::MAX,
                (blocks + 1) * 128 <= MAX_BITS,
            decreases entries@.len() - x,
        {
            let (a, c) = entries[x];
            proof {
                assert(x * (address_bits + chain_bits) + address_bits + chain_bits <= (blocks + 1) * 128) by (nonlinear_arith)
                    requires x < blocks + 1, address_bits <= 64, chain_bits <= 64;
            }
            index.add_entry(a, c);
            assert(index.view() =~= entries@.take(x + 1));
            assert((x + 1) * (address_bits + chain_bits) == x * (address_bits + chain_bits) + address_bits + chain_bits) by (nonlinear_arith);
            x += 1;
        }
        assert(entries@.take(x as int) =~= entries@);
        proof {
            chains@.to_multiset_ensures();
            unsorted.to_multiset_ensures();
            assert forall|x: int| 0 <= x < kept@.len() implies #[trigger] table.chain_map().contains_key(kept@[x].endpoint)
                && table.chain_map()[kept@[x].endpoint] == kept@[x].startpoint by {
                assert(chains@.contains(kept@[x]));
                assert(chains@.to_multiset().count(kept@[x]) > 0);
                assert(unsorted.contains(kept@[x]));
                let w = choose|w: int| 0 <= w < unsorted.len() && unsorted[w] == kept@[x];
                assert(table.chain_map().contains_key(unsorted[w].endpoint));
            }
            lemma_increasing(kept@);
            assert forall|x: int| 0 <= x < kept@.len() implies #[trigger] kept@[x].endpoint < ctx.n by {
                assert(table.chain_map().contains_key(kept@[x].endpoint));
            }
        }

        // the startpoints, in endpoint order
        let mut startpoints = Index::new(password_bits, 0);
        let mut y: usize = 0;
        while y < kept.len()
            invariant
                0 <= y <= kept@.len(),
                startpoints.wf(),
                startpoints.first_width() == password_bits,
                startpoints.second_width() == 0,
                startpoints.view().len() == y,
                forall|z: int| 0 <= z < kept@.len() ==> #[trigger] kept@[z].startpoint <= widest,
                widest < pow2(password_bits as nat),
                startpoints.bit_len() == y * password_bits,
                forall|z: int| 0 <= z < y ==> #[trigger] startpoints.view()[z] == (kept@[z].startpoint, 0u64),
                kept@.len() * 64 <= MAX_BITS,
                password_bits <= 64,
            decreases kept@.len() - y,
        {
            proof {
                assert(y * password_bits + password_bits <= kept@.len() * 64) by (nonlinear_arith)
                    requires y < kept@.len(), password_bits <= 64;
            }
            proof {
                vstd::arithmetic::power2::lemma2_to64();
            }
            let ghost before = startpoints.view();
            startpoints.add_entry(kept[y].startpoint, 0);
            assert forall|z: int| 0 <= z < y + 1 implies #[trigger] startpoints.view()[z] == (kept@[z].startpoint, 0u64) by {
                if z < y {
                    assert(startpoints.view()[z] == before[z]);
                }
            }
            assert((y + 1) * password_bits == y * password_bits + password_bits) by (nonlinear_arith);
            y += 1;
        }
        let r = CompressedTable {
            ctx,
            index,
            startpoints,
            endpoints,
            l: blocks,
            k,
            m,
            password_bits: password_bits as u8,
            stored: Ghost(kept@),
            positions: Ghost(pos),
        };
        proof {
            assert(kept@ =~= chains@);
            chains@.to_multiset_ensures();
            unsorted.to_multiset_ensures();
            let t = table.chain_map();
            let c = chains_map(kept@);
            assert forall|e: u64| #[trigger] c.contains_key(e) == t.contains_key(e) by {
                if t.contains_key(e) {
                    let w = choose|w: int| 0 <= w < unsorted.len() && unsorted[w].endpoint == e;
                    assert(unsorted.contains(unsorted[w]));
                    assert(unsorted.to_multiset().count(unsorted[w]) > 0);
                    assert(chains@.contains(unsorted[w]));
                    let x = choose|x: int| 0 <= x < chains@.len() && chains@[x] == unsorted[w];
                    assert(kept@[x].endpoint == e);
                }
                if c.contains_key(e) {
                    let x = choose|x: int| 0 <= x < kept@.len() && kept@[x].endpoint == e;
                    assert(t.contains_key(kept@[x].endpoint));
                }
            }
            assert forall|e: u64| #[trigger] c.contains_key(e) implies c[e] == t[e] by {
                let x = choose|x: int| 0 <= x < kept@.len() && kept@[x].endpoint == e;
                lemma_chains_map_at(kept@, x);
            }
            assert(c =~= t);
        }
        Ok(r)
    }

    /// The stored endpoint bits, in order.
    pub fn endpoint_bits(&self) -> (r: Vec<bool>)
        requires
            self.wf(),
        ensures
            r@ == self.endpoint_seq(),
    {
        bits_to_vec(&self.endpoints)
    }

    /// The stored startpoint bits, in order.
    pub fn startpoint_bits(&self) -> (r: Vec<bool>)
        requires
            self.wf(),
        ensures
            r@ == packed_bits(
                Seq::new(self.chain_count(), |x: int| (self.stored_chains()[x].startpoint, 0u64)),
                self.startpoint_width(),
                0,
            ),
    {
        assert(self.startpoints.view() =~= Seq::new(
            self.m as nat,
            |x: int| (self.stored@[x].startpoint, 0u64),
        ));
        self.startpoints.bits()
    }

    /// The entries of the block index: where each block starts in the
    /// endpoint bits, and the number of its first chain.
    pub closed spec fn index_entries(&self) -> Seq<(u64, u64)> {
        self.index.view()
    }

    /// The Rice parameter of the endpoint codes.
    pub closed spec fn rice_k(&self) -> u8 {
        self.k
    }

    /// Entry `j` of the block index: where block `j` starts in the
    /// endpoint bits, and the number of its first chain.
    pub fn block_entry(&self, j: usize) -> (r: Option<(u64, u64)>)
        requires
            self.wf(),
        ensures
            r == (if j < self.index_entries().len() {
                Some(self.index_entries()[j as int])
            } else {
                None
            }),
    {
        self.index.get_entry(j)
    }

    /// The Rice parameter.
    pub fn rice_parameter(&self) -> (r: u8)
        ensures
            r == self.rice_k(),
    {
        self.k
    }

    /// The number of chains.
    pub fn len(&self) -> (r: usize)
        requires
            self.wf(),
        ensures
            r == self.chain_count(),
    {
        self.m
    }

    /// A copy of the context.
    pub fn ctx(&self) -> (r: RainbowTableCtx)
        requires
            self.wf(),
        ensures
            r.same_as(&self.context()),
    {
        self.ctx.duplicate()
    }

    /// The startpoint of chain `i` (in endpoint order).
    fn startpoint(&self, i: usize) -> (r: Option<CompressedPassword>)
        requires
            self.wf(),
        ensures
            r matches Some(s) ==> s < pow2(self.startpoint_width()),
    {
        match self.startpoints.get_entry(i) {
            Some((s, _)) => Some(s),
            None => None,
        }
    }

    /// The endpoints stored in block `j`, with the number of the first
    /// chain of the block.
    fn block_endpoints(&self, j: usize) -> (r: (Vec<u64>, u64))
        requires
            self.wf(),
            j <= self.l,
        ensures
            r.1 == self.index.view()[j as int].1,
            r.0@.len() == block_end(self.index.view(), j as int, self.m as nat) - r.1,
            forall|y: int| 0 <= y < r.0@.len() ==> #[trigger] r.0@[y] == self.stored@[r.1 + y].endpoint,
    {
        let ghost ents = self.index.view();
        let ghost e = bits_of(self.endpoints);
        let ghost chains = self.stored@;
        let ghost pos = self.positions@;
        let (address, first_chain) = self.index.get_entry(j).unwrap();
        let end_chain: u64 = if j < self.l {
            self.index.get_entry(j + 1).unwrap().1
        } else {
            self.m as u64
        };
        assert(end_chain == block_end(ents, j as int, self.m as nat));
        assert(first_chain <= end_chain) by {
            if j < self.l {
                assert(ents[j as int].1 <= ents[j + 1].1);
            }
        }
        let count: u64 = end_chain - first_chain;
        let base: u64 = block_start_of(self.ctx.n, self.l, j);
        let mut out: Vec<u64> = Vec::new();
        proof {
            if count > 0 {
                assert(code_ok(e, ents, chains, pos, self.k as nat, self.ctx.n as nat, self.l as nat, j as int, first_chain as int));
            }
        }
        let mut pos_now: usize = address as usize;
        let mut last: u64 = base;
        let mut c: u64 = 0;
        while c < count
            invariant
                self.wf(),
                ents == self.index.view(),
                e == bits_of(self.endpoints),
                chains == self.stored@,
                pos == self.positions@,
                j <= self.l,
                first_chain == ents[j as int].1,
                end_chain == block_end(ents, j as int, self.m as nat),
                count == end_chain - first_chain,
                base == block_start(self.ctx.n as nat, self.l as nat, j as nat),
                address == ents[j as int].0,
                c <= count,
                out@.len() == c,
                forall|y: int| 0 <= y < c ==> #[trigger] out@[y] == chains[first_chain + y].endpoint,
                c < count ==> pos_now == pos[first_chain + c],
                c == 0 ==> last == base,
                c > 0 ==> last == chains[first_chain + c - 1].endpoint,
            decreases count - c,
        {
            let ghost x = (first_chain + c) as int;
            proof {
                assert(code_ok(e, ents, chains, pos, self.k as nat, self.ctx.n as nat, self.l as nat, j as int, x));
                if c == 0 {
                    assert(pos[x] == address);
                }
            }
            let (diff, next) = rice_decode(self.k, &self.endpoints, pos_now).unwrap();
            let endpoint = if c == 0 {
                last + diff
            } else {
                last + diff + 1
            };
            out.push(endpoint);
            last = endpoint;
            pos_now = next;
            c += 1;
        }
        (out, first_chain)
    }

    /// The chains of the table, in endpoint order.
    pub fn chains(&self) -> (r: Vec<RainbowChain>)
        requires
            self.wf(),
        ensures
            r@ == self.stored_chains(),
    {
        let ghost ents = self.index.view();
        let mut out: Vec<RainbowChain> = Vec::new();
        let mut j: usize = 0;
        while j <= self.l
            invariant
                self.wf(),
                ents == self.index.view(),
                j <= self.l + 1,
                j <= self.l ==> out@ == self.stored@.take(ents[j as int].1 as int),
                j == self.l + 1 ==> out@ == self.stored@,
            decreases self.l + 1 - j,
        {
            let (endpoints, first_chain) = self.block_endpoints(j);
            let ghost end = block_end(ents, j as int, self.m as nat);
            let mut x: usize = 0;
            while x < endpoints.len()
                invariant
                    self.wf(),
                    ents == self.index.view(),
                    j <= self.l,
                    x <= endpoints@.len(),
                    first_chain == ents[j as int].1,
                    endpoints@.len() == end - first_chain,
                    end <= self.m,
                    forall|y: int| 0 <= y < endpoints@.len() ==> #[trigger] endpoints@[y] == self.stored@[first_chain + y].endpoint,
                    out@ == self.stored@.take(first_chain + x),
                decreases endpoints@.len() - x,
            {
                let s = self.startpoints.get_entry(first_chain as usize + x).unwrap().0;
                let ghost i = first_chain + x;
                assert(self.startpoints.view()[i] == (self.stored@[i].startpoint, 0u64));
                out.push(RainbowChain { startpoint: s, endpoint: endpoints[x] });
                assert(out@ =~= self.stored@.take(first_chain + x + 1));
                x += 1;
            }
            proof {
                if j < self.l {
                    assert(end == ents[j + 1].1);
                } else {
                    assert(end == self.m);
                    assert(self.stored@.take(self.m as int) =~= self.stored@);
                }
            }
            j += 1;
        }
        out
    }

    /// The endpoints stored from block `block` on, in order.
    pub fn endpoints_from_block(&self, block: usize) -> (r: Vec<u64>)
        requires
            self.wf(),
            block < self.index_entries().len(),
        ensures
            r@ == Seq::new(
                (self.chain_count() - self.index_entries()[block as int].1) as nat,
                |y: int| self.stored_chains()[self.index_entries()[block as int].1 + y].endpoint,
            ),
    {
        let ghost ents = self.index.view();
        let ghost first = ents[block as int].1 as int;
        let mut out: Vec<u64> = Vec::new();
        let mut j: usize = block;
        while j <= self.l
            invariant
                self.wf(),
                ents == self.index.view(),
                first == ents[block as int].1,
                block <= j <= self.l + 1,
                j <= self.l ==> out@ =~= Seq::new(
                    (ents[j as int].1 - first) as nat,
                    |y: int| self.stored@[first + y].endpoint,
                ),
                j == self.l + 1 ==> out@ =~= Seq::new(
                    (self.m - first) as nat,
                    |y: int| self.stored@[first + y].endpoint,
                ),
            decreases self.l + 1 - j,
        {
            let (endpoints, first_chain) = self.block_endpoints(j);
            proof {
                if block < j {
                    lemma_entries_ordered(ents, block as int, j as int);
                }
            }
            let mut x: usize = 0;
            while x < endpoints.len()
                invariant
                    x <= endpoints@.len(),
                    first <= first_chain,
                    forall|y: int| 0 <= y < endpoints@.len() ==> #[trigger] endpoints@[y] == self.stored@[first_chain + y].endpoint,
                    out@ =~= Seq::new(
                        (first_chain + x - first) as nat,
                        |y: int| self.stored@[first + y].endpoint,
                    ),
                decreases endpoints@.len() - x,
            {
                out.push(endpoints[x]);
                x += 1;
            }
            proof {
                if j < self.l {
                    assert(block_end(ents, j as int, self.m as nat) == ents[j + 1].1);
                }
            }
            j += 1;
        }
        out
    }

    /// Decompresses the table into a simple table with the same context
    /// and the same chains. The map that receives the chains is allocated
    /// first, and that alone may fail.
    pub fn to_simple(&self) -> (r: Result<SimpleTable, CugparckError>)
        requires
            self.wf(),
        ensures
            r matches Ok(t) ==> t.table_wf() && t.context().same_as(&self.context())
                && t.chain_map() == chains_map(self.stored_chains()) && t.chain_map() == self.chain_map(),
            r matches Err(e) ==> e == CugparckError::OutOfMemory,
            slots_for(if self.chain_count() > 1 { self.chain_count() as u64 } else { 1u64 }) > usize::MAX
                ==> r == Err::<SimpleTable, CugparckError>(CugparckError::OutOfMemory),
    {
        let len: u64 = if self.m as u64 > 1 {
            self.m as u64
        } else {
            1
        };
        let map = match RainbowChainMap::new(len) {
            Ok(map) => map,
            Err(e) => return Err(e),
        };
        proof {
            assert(slots_for(len) >= len) by (nonlinear_arith)
                requires slots_for(len) == (len as nat * 10) / 7;
        }
        Ok(self.to_simple_in(map))
    }

    /// Decompresses the table into `map`, an empty map with a slot for each
    /// chain: a simple table with the same context and the same chains.
    pub fn to_simple_in(&self, map: RainbowChainMap) -> (t: SimpleTable)
        requires
            self.wf(),
            map.wf(),
            map@ == Map::<u64, u64>::empty(),
            map.len_spec() == 0,
            map.cap_spec() >= self.chain_count(),
        ensures
            t.table_wf(),
            t.context().same_as(&self.context()),
            t.chain_map() == chains_map(self.stored_chains()),
            t.chain_map() == self.chain_map(),
    {
        let chains = self.chains();
        let ctx = self.ctx.duplicate();
        let ghost stored = self.stored@;
        proof {
            lemma_increasing(stored);
        }
        let t = SimpleTable::from_chains(map, chains, ctx);
        proof {
            let m = t.chain_map();
            let c = chains_map(stored);
            assert forall|e: u64| #[trigger] m.contains_key(e) == c.contains_key(e) by {
                if m.contains_key(e) {
                    let i = choose|i: int| 0 <= i < stored.len() && stored[i].endpoint == e && stored[i].startpoint == m[e];
                }
                if c.contains_key(e) {
                    let i = choose|i: int| 0 <= i < stored.len() && stored[i].endpoint == e;
                    assert(m.contains_key(stored[i].endpoint));
                }
            }
            assert forall|e: u64| #[trigger] m.contains_key(e) implies m[e] == c[e] by {
                let i = choose|i: int| 0 <= i < stored.len() && stored[i].endpoint == e && stored[i].startpoint == m[e];
                lemma_chains_map_at(stored, i);
            }
            assert(m =~= c);
        }
        t
    }
}

/// The stored form of a compressed table: its geometry and its three
/// bit-vectors.
pub struct CompressedParts {
    pub k: u8,
    pub l: usize,
    pub m: usize,
    pub password_bits: u8,
    pub endpoints: Vec<bool>,
    pub startpoints: Vec<bool>,
    pub index: Vec<bool>,
}

/// A bit-vector holding the given bits.
pub fn bits_from_vec(v: &Vec<bool>) -> (r: Option<Bits>)
    ensures
        r matches Some(b) ==> bits_of(b) == v@ && v@.len() <= MAX_BITS,
        r is None ==> v@.len() > MAX_BITS,
{
    if v.len() > MAX_BITS {
        return None;
    }
    let mut b = bits_new();
    let mut i: usize = 0;
    while i < v.len()
        invariant
            0 <= i <= v@.len(),
            v@.len() <= MAX_BITS,
            bits_of(b) == v@.take(i as int),
        decreases v@.len() - i,
    {
        bits_push(&mut b, v[i]);
        i += 1;
        assert(bits_of(b) =~= v@.take(i as int));
    }
    assert(v@.take(i as int) =~= v@);
    Some(b)
}

/// Whether two bit lists are equal.
fn same_bits(a: &Vec<bool>, b: &Vec<bool>) -> (r: bool)
    ensures
        r == (a@ == b@),
{
    if a.len() != b.len() {
        return false;
    }
    let mut i: usize = 0;
    while i < a.len()
        invariant
            0 <= i <= a@.len(),
            a@.len() == b@.len(),
            forall|j: int| 0 <= j < i ==> a@[j] == b@[j],
        decreases a@.len() - i,
    {
        if a[i] != b[i] {
            return false;
        }
        i += 1;
    }
    assert(a@ =~= b@);
    true
}

/// The geometry of stored parts is possible: a Rice parameter in `1..=63`,
/// at least one block, startpoints of at most 64 bits, and not more chains
/// than a table can hold.
pub open spec fn parts_framed(parts: &CompressedParts) -> bool {
    &&& 1 <= parts.k <= 63
    &&& 1 <= parts.l < usize::MAX
    &&& parts.password_bits <= 64
    &&& parts.m <= usize::MAX / 1024
    &&& parts.endpoints@.len() <= MAX_BITS
    &&& parts.startpoints@.len() <= MAX_BITS
    &&& parts.index@.len() <= MAX_BITS
}

/// Decodes the chains that stored parts describe, checking every length,
/// position and value on the way.
fn decode_parts(ctx: &RainbowTableCtx, parts: &CompressedParts) -> (r: Result<Vec<RainbowChain>, CugparckError>)
    requires
        ctx.wf(),
    ensures
        r matches Ok(chains) ==> forall|i: int| 0 <= i < chains@.len() ==> #[trigger] chains@[i].endpoint < ctx.n,
        r matches Err(e) ==> e == CugparckError::Corrupt,
        !parts_framed(parts) ==> r is Err,
{
    let k = parts.k;
    let l = parts.l;
    let m = parts.m;
    let p = parts.password_bits as usize;
    if k < 1 || k > 63 || l < 1 || l == usize::MAX || p > 64 || m > usize::MAX / 1024 {
        return Err(CugparckError::Corrupt);
    }
    let endpoints = match bits_from_vec(&parts.endpoints) {
        Some(b) => b,
        None => return Err(CugparckError::Corrupt),
    };
    let startpoints = match bits_from_vec(&parts.startpoints) {
        Some(b) => b,
        None => return Err(CugparckError::Corrupt),
    };
    let index = match bits_from_vec(&parts.index) {
        Some(b) => b,
        None => return Err(CugparckError::Corrupt),
    };
    let a = bit_width(bits_len(&endpoints) as u64);
    let c = bit_width(m as u64);
    let entry = a + c;
    if bits_len(&index) / entry.max(1) < l + 1 || bits_len(&startpoints) / p.max(1) < m {
        return Err(CugparckError::Corrupt);
    }
    proof {
        let ie: int = if entry > 0 { entry as int } else { 1 };
        let il: int = bits_of(index).len() as int;
        let ip: int = if p > 0 { p as int } else { 1 };
        let sl: int = bits_of(startpoints).len() as int;
        vstd::arithmetic::div_mod::lemma_fundamental_div_mod(il, ie);
        vstd::arithmetic::div_mod::lemma_mod_bound(il, ie);
        vstd::arithmetic::div_mod::lemma_fundamental_div_mod(sl, ip);
        vstd::arithmetic::div_mod::lemma_mod_bound(sl, ip);
        assert(il / ie >= l + 1);
        assert(sl / ip >= m);
        assert((l + 1) * entry <= il) by (nonlinear_arith)
            requires il / ie >= l + 1, il == ie * (il / ie) + il % ie, il % ie >= 0, entry >= 0,
                ie == if entry > 0 { entry as int } else { 1 };
        assert(m * p <= sl) by (nonlinear_arith)
            requires sl / ip >= m, sl == ip * (sl / ip) + sl % ip, sl % ip >= 0, p >= 0,
                ip == if p > 0 { p as int } else { 1 };
    }
    let mut chains: Vec<RainbowChain> = Vec::new();
    let mut j: usize = 0;
    while j <= l
        invariant
            ctx.wf(),
            1 <= k <= 63,
            1 <= l < usize::MAX,
            p <= 64,
            a <= 64,
            c <= 64,
            entry == a + c,
            (l + 1) * entry <= bits_of(index).len(),
            m * p <= bits_of(startpoints).len(),
            bits_of(index).len() <= MAX_BITS,
            bits_of(startpoints).len() <= MAX_BITS,
            m <= usize::MAX / 1024,
            j <= l + 1,
            forall|i: int| 0 <= i < chains@.len() ==> #[trigger] chains@[i].endpoint < ctx.n,
        decreases l + 1 - j,
    {
        proof {
            assert(j * entry + entry <= (l + 1) * entry) by (nonlinear_arith)
                requires j <= l;
        }
        let address = load_bits(&index, j * entry, a);
        let first = load_bits(&index, j * entry + a, c);
        let end: u64 = if j < l {
            proof {
                assert((j + 1) * entry + entry <= (l + 1) * entry) by (nonlinear_arith)
                    requires j < l;
            }
            load_bits(&index, (j + 1) * entry + a, c)
        } else {
            m as u64
        };
        if first > end || end > m as u64 || address > bits_len(&endpoints) as u64 {
            return Err(CugparckError::Corrupt);
        }
        let base: u64 = block_start_of(ctx.n, l, j);
        let mut pos: usize = address as usize;
        let mut last: u64 = base;
        let mut y: u64 = first;
        while y < end
            invariant
                ctx.wf(),
                1 <= k <= 63,
                p <= 64,
                y <= end,
                end <= m,
                m * p <= bits_of(startpoints).len(),
                bits_of(startpoints).len() <= MAX_BITS,
                m <= usize::MAX / 1024,
                forall|i: int| 0 <= i < chains@.len() ==> #[trigger] chains@[i].endpoint < ctx.n,
            decreases end - y,
        {
            let (diff, next) = match rice_decode(k, &endpoints, pos) {
                Some(decoded) => decoded,
                None => return Err(CugparckError::Corrupt),
            };
            let endpoint = if y == first {
                if diff > u64::MAX - last {
                    return Err(CugparckError::Corrupt);
                }
                last + diff
            } else {
                if last == u64::MAX || diff > u64::MAX - last - 1 {
                    return Err(CugparckError::Corrupt);
                }
                last + diff + 1
            };
            if endpoint >= ctx.n {
                return Err(CugparckError::Corrupt);
            }
            proof {
                assert((y + 1) * p <= m * p) by (nonlinear_arith)
                    requires y < m;
                assert(y * p + p == (y + 1) * p) by (nonlinear_arith);
            }
            let startpoint = load_bits(&startpoints, y as usize * p, p);
            chains.push(RainbowChain { startpoint, endpoint });
            last = endpoint;
            pos = next;
            y += 1;
        }
        j += 1;
    }
    Ok(chains)
}

impl CompressedTable {
    /// The stored form of the table.
    pub fn to_parts(&self) -> (r: CompressedParts)
        requires
            self.wf(),
        ensures
            r.k == self.rice_k(),
            r.m == self.chain_count(),
            r.endpoints@ == self.endpoint_seq(),
    {
        CompressedParts {
            k: self.k,
            l: self.l,
            m: self.m,
            password_bits: self.password_bits,
            endpoints: self.endpoint_bits(),
            startpoints: self.startpoint_bits(),
            index: self.index.bits(),
        }
    }

    /// Restores a table from its stored form: the parts are decoded, the
    /// table is built again from the chains, and it is kept only if it
    /// stores exactly the same bits.
    pub fn from_parts(ctx: RainbowTableCtx, parts: &CompressedParts) -> (r: Result<Self, CugparckError>)
        requires
            ctx.wf(),
        ensures
            r matches Ok(c) ==> c.wf() && c.table_wf() && c.context().same_as(&ctx) && c.endpoint_seq()
                == parts.endpoints@ && c.rice_k() == parts.k && c.chain_count() == parts.m,
            r matches Err(e) ==> e == CugparckError::Corrupt || e == CugparckError::OutOfMemory,
            !parts_framed(parts) ==> r == Err::<Self, CugparckError>(CugparckError::Corrupt),
    {
        let chains = match decode_parts(&ctx, parts) {
            Ok(chains) => chains,
            Err(e) => return Err(e),
        };
        if parts.k < 1 || parts.k > 63 {
            return Err(CugparckError::Corrupt);
        }
        let simple = match SimpleTable::from_vec(chains, ctx) {
            Ok(t) => t,
            Err(e) => return Err(e),
        };
        if simple.len() > usize::MAX / 1024 {
            return Err(CugparckError::Corrupt);
        }
        let table = match CompressedTable::from_rainbow_table(&simple, parts.k) {
            Ok(t) => t,
            Err(e) => return Err(e),
        };
        let endpoints = table.endpoint_bits();
        if !same_bits(&endpoints, &parts.endpoints) || !same_bits(&table.startpoint_bits(), &parts.startpoints)
            || !same_bits(&table.index.bits(), &parts.index) || table.l != parts.l || table.m != parts.m
            || table.password_bits != parts.password_bits {
            return Err(CugparckError::Corrupt);
        }
        Ok(table)
    }
}

impl RainbowTable for CompressedTable {
    closed spec fn table_wf(&self) -> bool {
        self.wf()
    }

    closed spec fn chain_map(&self) -> Map<u64, u64> {
        chains_map(self.stored@)
    }

    closed spec fn context(&self) -> RainbowTableCtx {
        self.ctx
    }

    proof fn lemma_table_wf(&self) {
        assert forall|e: u64| #[trigger] chains_map(self.stored@).contains_key(e) implies e < self.ctx.n by {
            let x = choose|x: int| 0 <= x < self.stored@.len() && self.stored@[x].endpoint == e;
        }
    }

    /// Searches the endpoints for a counter: decodes the one block whose
    /// range holds it; returns the startpoint of the chain that ends there.
    fn search_endpoints(&self, password: CompressedPassword) -> (r: Option<CompressedPassword>) {
        let ghost ents = self.index.view();
        let ghost chains = self.stored@;
        // the block whose range holds the endpoint: password * l / n
        let block: usize = if password >= self.ctx.n {
            self.l
        } else {
            proof {
                assert(password as nat * self.l as nat <= 0xffff_ffff_ffff_ffff * 0xffff_ffff_ffff_ffff) by (nonlinear_arith)
                    requires password <= 0xffff_ffff_ffff_ffffu64, self.l as nat <= 0xffff_ffff_ffff_ffff;
                assert(password as nat * self.l as nat / self.ctx.n as nat <= self.l) by (nonlinear_arith)
                    requires password < self.ctx.n, self.ctx.n >= 1;
            }
            (password as u128 * self.l as u128 / self.ctx.n as u128) as usize
        };
        let (endpoints, first_chain) = self.block_endpoints(block);
        proof {
            lemma_increasing(chains);
        }
        let mut x: usize = 0;
        while x < endpoints.len()
            invariant
                self.wf(),
                ents == self.index.view(),
                chains == self.stored@,
                block <= self.l,
                first_chain == ents[block as int].1,
                endpoints@.len() == block_end(ents, block as int, self.m as nat) - first_chain,
                forall|y: int| 0 <= y < endpoints@.len() ==> #[trigger] endpoints@[y] == chains[first_chain + y].endpoint,
                forall|y: int| 0 <= y < x ==> endpoints@[y] != password,
                forall|a: int, b: int| 0 <= a < b < chains.len() ==> chains[a].endpoint < chains[b].endpoint,
            decreases endpoints@.len() - x,
        {
            if endpoints[x] == password {
                let s = self.startpoints.get_entry(first_chain as usize + x).unwrap().0;
                proof {
                    let i = first_chain + x;
                    assert(self.startpoints.view()[i] == (chains[i].startpoint, 0u64));
                    lemma_chains_map_at(chains, i);
                }
                return Some(s);
            }
            x += 1;
        }
        proof {
            if chains_map(chains).contains_key(password) {
                let w = choose|w: int| 0 <= w < chains.len() && chains[w].endpoint == password;
                lemma_block_of(ents, self.m as nat, w, 0);
                let jb = choose|jb: int| 0 <= jb < ents.len() && ents[jb].1 <= w < #[trigger] block_end(ents, jb, self.m as nat);
                assert(code_ok(bits_of(self.endpoints), ents, chains, self.positions@, self.k as nat, self.ctx.n as nat, self.l as nat, jb, w));
                lemma_block_index(password, self.ctx.n, self.l, jb, block);
                assert(endpoints@[w - first_chain] == password);
            }
        }
        None
    }

    fn ctx_ref(&self) -> (r: &RainbowTableCtx) {
        &self.ctx
    }
}

} // verus!
