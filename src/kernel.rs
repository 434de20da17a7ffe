//! The chain kernel: advances many chains over a range of columns, with its
//! own single-block MD4 for the MD4 and NTLM hash functions.
use vstd::prelude::*;

use crate::codec::{
    counter_to_plaintext, lemma_plaintext_len, lemma_space_nonempty, plaintext_of, reduce,
    reduce_spec,
};
use crate::ctx::RainbowTableCtx;
use crate::hash::{digest_of, utf16_le, utf16_le_spec, HashFunction};
use crate::CompressedPassword;

verus! {

/// `a` rotated left by `n` bits.
pub open spec fn rotl(a: u32, n: u32) -> u32 {
    ((a << n) | (a >> (32 - n) as u32)) as u32
}

/// The MD4 selection function: `y` where `x` is set, `z` elsewhere.
pub open spec fn f_spec(x: u32, y: u32, z: u32) -> u32 {
    (x & y) | (!x & z)
}

/// The MD4 majority function.
pub open spec fn g_spec(x: u32, y: u32, z: u32) -> u32 {
    (x & y) | (x & z) | (y & z)
}

/// The MD4 parity function.
pub open spec fn h_spec(x: u32, y: u32, z: u32) -> u32 {
    x ^ y ^ z
}

/// 32-bit addition modulo 2^32.
pub open spec fn add32(a: u32, b: u32) -> u32 {
    ((a as nat + b as nat) % 0x1_0000_0000) as u32
}

/// The word of the block that step `i` of MD4 reads.
pub open spec fn step_word(i: nat) -> nat {
    if i < 16 {
        i
    } else if i < 32 {
        let j = (i - 16) as nat;
        (j % 4) * 4 + j / 4
    } else {
        let j = (i - 32) as nat;
        (j % 2) * 8 + ((j / 2) % 2) * 4 + ((j / 4) % 2) * 2 + (j / 8)
    }
}

/// The rotation of step `i` of MD4.
pub open spec fn step_shift(i: nat) -> u32 {
    let r = i % 4;
    if i < 16 {
        if r == 0 { 3 } else if r == 1 { 7 } else if r == 2 { 11 } else { 19 }
    } else if i < 32 {
        if r == 0 { 3 } else if r == 1 { 5 } else if r == 2 { 9 } else { 13 }
    } else {
        if r == 0 { 3 } else if r == 1 { 9 } else if r == 2 { 11 } else { 15 }
    }
}

/// Step `i` of MD4 on the register being updated, given the three others.
pub open spec fn step_op(i: nat, a: u32, b: u32, c: u32, d: u32, x: u32) -> u32 {
    let s = step_shift(i);
    if i < 16 {
        rotl(add32(add32(a, f_spec(b, c, d)), x), s)
    } else if i < 32 {
        rotl(add32(add32(add32(a, g_spec(b, c, d)), x), 0x5A827999), s)
    } else {
        rotl(add32(add32(add32(a, h_spec(b, c, d)), x), 0x6ED9EBA1), s)
    }
}

/// The MD4 registers after the first `n` steps on `block`, rotated so that
/// the register updated next comes first.
pub open spec fn md4_steps(block: Seq<u32>, n: nat) -> (u32, u32, u32, u32)
    decreases n,
{
    if n == 0 {
        (0x67452301u32, 0xEFCDAB89u32, 0x98BADCFEu32, 0x10325476u32)
    } else {
        let (a, b, c, d) = md4_steps(block, (n - 1) as nat);
        let i = (n - 1) as nat;
        (d, step_op(i, a, b, c, d, block[step_word(i) as int]), b, c)
    }
}

/// The MD4 chaining value after processing one block from the initial value.
pub open spec fn md4_block_spec(block: Seq<u32>) -> Seq<u32> {
    let (a, b, c, d) = md4_steps(block, 48);
    seq![
        add32(0x67452301u32, a),
        add32(0xEFCDAB89u32, b),
        add32(0x98BADCFEu32, c),
        add32(0x10325476u32, d),
    ]
}

/// The little-endian word at byte offset `o` of `s`.
pub open spec fn le32(s: Seq<u8>, o: int) -> u32 {
    (s[o] as u32 | (s[o + 1] as u32) << 8u32 | (s[o + 2] as u32) << 16u32 | (s[o + 3] as u32)
        << 24u32) as u32
}

/// Byte `j` (little-endian) of word `w`.
pub open spec fn byte_of(w: u32, j: int) -> u8 {
    ((w >> (8 * j) as u32) & 0xff) as u8
}

/// The single MD4 block of a message of at most 55 bytes: the message, the
/// `0x80` marker, zeros, and the bit length in words 14 and 15.
pub open spec fn md4_padded_block(p: Seq<u8>) -> Seq<u32> {
    let padded = Seq::new(
        64,
        |i: int|
            if i < p.len() {
                p[i]
            } else if i == p.len() {
                0x80u8
            } else {
                0u8
            },
    );
    Seq::new(
        16,
        |w: int|
            if w == 14 {
                ((p.len() as u32) << 3u32) as u32
            } else if w == 15 {
                ((p.len() as u32) >> 29u32) as u32
            } else {
                le32(padded, 4 * w)
            },
    )
}

/// The MD4 digest of a message of at most 55 bytes.
pub open spec fn md4_spec(p: Seq<u8>) -> Seq<u8> {
    let h = md4_block_spec(md4_padded_block(p));
    Seq::new(16, |i: int| byte_of(h[i / 4], i % 4))
}

/// The digest the kernel computes: its own MD4 for MD4 and NTLM, the hash
/// function itself otherwise.
pub open spec fn kernel_digest(h: HashFunction, p: Seq<u8>) -> Seq<u8> {
    match h {
        HashFunction::Md4 => md4_spec(p),
        HashFunction::Ntlm => md4_spec(utf16_le_spec(p)),
        _ => digest_of(h, p),
    }
}

/// One column of a chain in the kernel: counter `c` at column `i` becomes
/// the reduction of the digest of its password.
pub open spec fn kernel_step(ctx: RainbowTableCtx, c: nat, i: nat) -> nat {
    reduce_spec(
        kernel_digest(ctx.hash_function, plaintext_of(ctx.charset@, ctx.max_len(), c)),
        i as u64,
        ctx.tn,
        ctx.n,
    )
}

/// The counter that `c` becomes after the kernel's columns `start..end`.
pub open spec fn kernel_chain(ctx: RainbowTableCtx, c: nat, start: nat, end: nat) -> nat
    decreases end - start,
{
    if start >= end {
        c
    } else {
        kernel_chain(ctx, kernel_step(ctx, c, start), start + 1, end)
    }
}

/// Running the kernel over `a..b` then `b..c` is running it over `a..c`.
pub proof fn lemma_kernel_chain_concat(ctx: RainbowTableCtx, x: nat, a: nat, b: nat, c: nat)
    requires
        a <= b <= c,
    ensures
        kernel_chain(ctx, kernel_chain(ctx, x, a, b), b, c) == kernel_chain(ctx, x, a, c),
    decreases b - a,
{
    if a < b {
        lemma_kernel_chain_concat(ctx, kernel_step(ctx, x, a), a + 1, b, c);
    }
}

/// The kernel keeps a counter of the space in the space.
pub proof fn lemma_kernel_chain_bound(ctx: RainbowTableCtx, x: nat, a: nat, b: nat)
    requires
        x < ctx.n,
    ensures
        kernel_chain(ctx, x, a, b) < ctx.n,
    decreases b - a,
{
    if a < b {
        lemma_kernel_chain_bound(ctx, kernel_step(ctx, x, a), a + 1, b);
    }
}

/// Rotates a word left.
pub fn rotate_left(a: u32, n: u32) -> (r: u32)
    requires
        0 < n < 32,
    ensures
        r == rotl(a, n),
{
    (a << n) | (a >> (32 - n))
}

/// The MD4 selection function.
pub fn md4_f(x: u32, y: u32, z: u32) -> (r: u32)
    ensures
        r == f_spec(x, y, z),
{
    assert(z ^ (x & (y ^ z)) == (x & y) | (!x & z)) by (bit_vector);
    z ^ (x & (y ^ z))
}

/// The MD4 majority function.
pub fn md4_g(x: u32, y: u32, z: u32) -> (r: u32)
    ensures
        r == g_spec(x, y, z),
{
    assert((x & (y | z)) | (y & z) == (x & y) | (x & z) | (y & z)) by (bit_vector);
    (x & (y | z)) | (y & z)
}

/// The MD4 parity function.
pub fn md4_h(x: u32, y: u32, z: u32) -> (r: u32)
    ensures
        r == h_spec(x, y, z),
{
    x ^ y ^ z
}

proof fn lemma_add32(a: u32, b: u32)
    ensures
        a.wrapping_add(b) == add32(a, b),
{
}

/// A step of MD4's first round.
pub fn md4_ff(a: u32, b: u32, c: u32, d: u32, x: u32, s: u32) -> (r: u32)
    requires
        0 < s < 32,
    ensures
        r == rotl(add32(add32(a, f_spec(b, c, d)), x), s),
{
    let a = a.wrapping_add(md4_f(b, c, d)).wrapping_add(x);
    rotate_left(a, s)
}

/// A step of MD4's second round.
pub fn md4_gg(a: u32, b: u32, c: u32, d: u32, x: u32, s: u32) -> (r: u32)
    requires
        0 < s < 32,
    ensures
        r == rotl(add32(add32(add32(a, g_spec(b, c, d)), x), 0x5A827999), s),
{
    let a = a.wrapping_add(md4_g(b, c, d)).wrapping_add(x).wrapping_add(0x5A827999);
    rotate_left(a, s)
}

/// A step of MD4's third round.
pub fn md4_hh(a: u32, b: u32, c: u32, d: u32, x: u32, s: u32) -> (r: u32)
    requires
        0 < s < 32,
    ensures
        r == rotl(add32(add32(add32(a, h_spec(b, c, d)), x), 0x6ED9EBA1), s),
{
    let a = a.wrapping_add(md4_h(b, c, d)).wrapping_add(x).wrapping_add(0x6ED9EBA1);
    rotate_left(a, s)
}

fn word_index(i: usize) -> (r: usize)
    requires
        i < 48,
    ensures
        r == step_word(i as nat),
        r < 16,
{
    if i < 16 {
        i
    } else if i < 32 {
        let j = i - 16;
        (j % 4) * 4 + j / 4
    } else {
        let j = i - 32;
        (j % 2) * 8 + ((j / 2) % 2) * 4 + ((j / 4) % 2) * 2 + (j / 8)
    }
}

fn shift_of(i: usize) -> (r: u32)
    requires
        i < 48,
    ensures
        r == step_shift(i as nat),
        0 < r < 32,
{
    let r = i % 4;
    if i < 16 {
        if r == 0 { 3 } else if r == 1 { 7 } else if r == 2 { 11 } else { 19 }
    } else if i < 32 {
        if r == 0 { 3 } else if r == 1 { 5 } else if r == 2 { 9 } else { 13 }
    } else {
        if r == 0 { 3 } else if r == 1 { 9 } else if r == 2 { 11 } else { 15 }
    }
}

/// Processes one block of sixteen words from the MD4 initial value.
pub fn md4_process_block(block: &Vec<u32>) -> (r: Vec<u32>)
    requires
        block@.len() == 16,
    ensures
        r@ == md4_block_spec(block@),
{
    let mut a: u32 = 0x67452301u32;
    let mut b: u32 = 0xEFCDAB89u32;
    let mut c: u32 = 0x98BADCFEu32;
    let mut d: u32 = 0x10325476u32;
    let mut i: usize = 0;
    while i < 48
        invariant
            0 <= i <= 48,
            block@.len() == 16,
            md4_steps(block@, i as nat) == (a, b, c, d),
        decreases 48 - i,
    {
        let x = block[word_index(i)];
        let s = shift_of(i);
        let na = if i < 16 {
            md4_ff(a, b, c, d, x, s)
        } else if i < 32 {
            md4_gg(a, b, c, d, x, s)
        } else {
            md4_hh(a, b, c, d, x, s)
        };
        let nd = c;
        c = b;
        b = na;
        a = d;
        d = nd;
        i += 1;
    }
    proof {
        lemma_add32(0x67452301u32, a);
    }
    let mut hash: Vec<u32> = Vec::new();
    hash.push(0x67452301u32.wrapping_add(a));
    hash.push(0xEFCDAB89u32.wrapping_add(b));
    hash.push(0x98BADCFEu32.wrapping_add(c));
    hash.push(0x10325476u32.wrapping_add(d));
    assert(hash@ =~= md4_block_spec(block@));
    hash
}

/// Packs bytes into little-endian words: word `i` of `destination` becomes
/// bytes `4i..4i+4` of `source`, for the words that `len_bytes` covers.
pub fn memcpy_to_bigger_type(destination: &mut Vec<u32>, source: &Vec<u8>, len_bytes: u32)
    requires
        source@.len() >= 4 * ((len_bytes as nat + 3) / 4),
        (len_bytes as nat + 3) / 4 <= old(destination)@.len(),
    ensures
        final(destination)@.len() == old(destination)@.len(),
        forall|i: int|
            0 <= i < final(destination)@.len() ==> #[trigger] final(destination)@[i] == if i < (
            len_bytes as nat + 3) / 4 {
                le32(source@, 4 * i)
            } else {
                old(destination)@[i]
            },
{
    let dst_len: usize = ((len_bytes as u64 + 3) / 4) as usize;
    let mut i: usize = 0;
    while i < dst_len
        invariant
            0 <= i <= dst_len,
            dst_len == (len_bytes as nat + 3) / 4,
            dst_len <= destination@.len(),
            destination@.len() == old(destination)@.len(),
            source@.len() >= 4 * dst_len,
            forall|j: int|
                0 <= j < destination@.len() ==> #[trigger] destination@[j] == if j < i {
                    le32(source@, 4 * j)
                } else {
                    old(destination)@[j]
                },
        decreases dst_len - i,
    {
        let w = source[4 * i] as u32 | (source[4 * i + 1] as u32) << 8u32 | (source[4 * i + 2]
            as u32) << 16u32 | (source[4 * i + 3] as u32) << 24u32;
        destination.set(i, w);
        i += 1;
    }
}

/// Unpacks words into little-endian bytes: bytes `4i..4i+4` of `destination`
/// become the bytes of word `i` of `source`, for the words in `len_bytes`.
pub fn memcpy_to_smaller_type(destination: &mut Vec<u8>, source: &Vec<u32>, len_bytes: u32)
    requires
        len_bytes as nat / 4 <= source@.len(),
        4 * (len_bytes as nat / 4) <= old(destination)@.len(),
    ensures
        final(destination)@.len() == old(destination)@.len(),
        forall|k: int|
            0 <= k < final(destination)@.len() ==> #[trigger] final(destination)@[k] == if k < 4
                * (len_bytes as nat / 4) {
                byte_of(source@[k / 4], k % 4)
            } else {
                old(destination)@[k]
            },
{
    let src_len: usize = (len_bytes / 4) as usize;
    let mut i: usize = 0;
    while i < src_len
        invariant
            0 <= i <= src_len,
            src_len == len_bytes as nat / 4,
            src_len <= 0x3fff_ffff,
            src_len <= source@.len(),
            4 * src_len <= destination@.len(),
            destination@.len() == old(destination)@.len(),
            forall|k: int|
                0 <= k < destination@.len() ==> #[trigger] destination@[k] == if k < 4 * i {
                    byte_of(source@[k / 4], k % 4)
                } else {
                    old(destination)@[k]
                },
        decreases src_len - i,
    {
        let w = source[i];
        let mut j: usize = 0;
        while j < 4
            invariant
                0 <= j <= 4,
                i < src_len,
                src_len <= 0x3fff_ffff,
                w == source@[i as int],
                4 * src_len <= destination@.len(),
                destination@.len() == old(destination)@.len(),
                forall|k: int|
                    0 <= k < destination@.len() ==> #[trigger] destination@[k] == if k < 4 * i
                        + j {
                        byte_of(source@[k / 4], k % 4)
                    } else {
                        old(destination)@[k]
                    },
            decreases 4 - j,
        {
            let byte = ((w >> (8 * j as u32)) & 0xff) as u8;
            assert(4 * i + j < destination@.len());
            destination.set(4 * i + j, byte);
            proof {
                let k = 4 * i + j;
                assert(k / 4 == i as int && k % 4 == j as int);
            }
            j += 1;
        }
        i += 1;
    }
}

/// MD4 of a message that fits in one block.
pub fn md4(password: &[u8]) -> (r: Vec<u8>)
    requires
        password@.len() <= 55,
    ensures
        r@ == md4_spec(password@),
{
    let len = password.len();
    let mut input: Vec<u8> = Vec::new();
    let mut i: usize = 0;
    while i < 64
        invariant
            0 <= i <= 64,
            len == password@.len(),
            len <= 55,
            input@.len() == i,
            forall|k: int|
                0 <= k < i ==> #[trigger] input@[k] == if k < len {
                    password@[k]
                } else if k == len {
                    0x80u8
                } else {
                    0u8
                },
        decreases 64 - i,
    {
        if i < len {
            input.push(password[i]);
        } else if i == len {
            input.push(0x80);
        } else {
            input.push(0);
        }
        i += 1;
    }
    let mut block: Vec<u32> = vec![0u32; 16];
    memcpy_to_bigger_type(&mut block, &input, 64);
    block.set(14, (len as u32) << 3u32);
    block.set(15, (len as u32) >> 29u32);
    let ghost padded = Seq::new(
        64,
        |k: int|
            if k < password@.len() {
                password@[k]
            } else if k == password@.len() {
                0x80u8
            } else {
                0u8
            },
    );
    assert(input@ =~= padded);
    assert(block@ =~= md4_padded_block(password@));
    let hash = md4_process_block(&block);
    let mut digest: Vec<u8> = vec![0u8; 16];
    memcpy_to_smaller_type(&mut digest, &hash, 16);
    assert(digest@ =~= md4_spec(password@));
    digest
}

/// Hashes a password using NTLM: MD4 of its UTF-16LE encoding.
pub fn ntlm(password: &[u8]) -> (r: Vec<u8>)
    requires
        password@.len() <= 27,
    ensures
        r@ == md4_spec(utf16_le_spec(password@)),
{
    let encoded = utf16_le(password);
    md4(encoded.as_slice())
}

/// Digests a password as the kernel does.
fn kernel_hash(password: &[u8], h: HashFunction) -> (r: Vec<u8>)
    requires
        password@.len() <= 27,
    ensures
        r@ == kernel_digest(h, password@),
        r@.len() >= 16,
{
    match h {
        HashFunction::Md4 => md4(password),
        HashFunction::Ntlm => ntlm(password),
        _ => h.hash(password),
    }
}

/// Advances a chain from its counter at column `columns_start` to its
/// counter at column `columns_end`.
pub fn continue_chain(
    compressed_password: CompressedPassword,
    columns_start: u64,
    columns_end: u64,
    ctx: &RainbowTableCtx,
) -> (r: CompressedPassword)
    requires
        ctx.space_wf(),
    ensures
        r == kernel_chain(*ctx, compressed_password as nat, columns_start as nat, columns_end as nat),
{
    proof {
        lemma_space_nonempty(ctx);
    }
    let mut counter = compressed_password;
    let mut i: u64 = columns_start;
    while i < columns_end
        invariant
            ctx.space_wf(),
            ctx.n > 0,
            columns_start <= columns_end ==> columns_start <= i <= columns_end,
            columns_start > columns_end ==> i == columns_start,
            kernel_chain(*ctx, compressed_password as nat, columns_start as nat, columns_end as nat)
                == kernel_chain(*ctx, counter as nat, i as nat, columns_end as nat),
        decreases columns_end - i,
    {
        let plaintext = counter_to_plaintext(counter, ctx);
        proof {
            lemma_plaintext_len(ctx.charset@, ctx.max_len(), counter as nat);
        }
        let digest = kernel_hash(plaintext.as_slice(), ctx.hash_function);
        counter = reduce(&digest, i, ctx);
        i += 1;
    }
    counter
}

/// The kernel: advances every midpoint from column `col_start` to column `col_end`.
pub fn chains_kernel(midpoints: &mut Vec<u64>, col_start: u64, col_end: u64, ctx: &RainbowTableCtx)
    requires
        ctx.space_wf(),
    ensures
        final(midpoints)@.len() == old(midpoints)@.len(),
        forall|i: int|
            0 <= i < final(midpoints)@.len() ==> #[trigger] final(midpoints)@[i] == kernel_chain(
                *ctx,
                old(midpoints)@[i] as nat,
                col_start as nat,
                col_end as nat,
            ),
{
    let mut i: usize = 0;
    while i < midpoints.len()
        invariant
            ctx.space_wf(),
            0 <= i <= midpoints@.len(),
            midpoints@.len() == old(midpoints)@.len(),
            forall|j: int|
                0 <= j < midpoints@.len() ==> #[trigger] midpoints@[j] == if j < i {
                    kernel_chain(*ctx, old(midpoints)@[j] as nat, col_start as nat, col_end as nat)
                } else {
                    old(midpoints)@[j] as nat
                },
        decreases midpoints@.len() - i,
    {
        let next = continue_chain(midpoints[i], col_start, col_end, ctx);
        midpoints.set(i, next);
        i += 1;
    }
}

} // verus!
