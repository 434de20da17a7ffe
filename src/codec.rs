//! The bijection between counters and passwords, and the reduction function.
use vstd::arithmetic::div_mod::{lemma_fundamental_div_mod, lemma_mod_bound};
use vstd::arithmetic::mul::lemma_mul_inequality;
use vstd::prelude::*;

use crate::ctx::RainbowTableCtx;
use crate::CompressedPassword;

verus! {

/// `b` to the power `e`.
pub open spec fn power(b: nat, e: nat) -> nat
    decreases e,
{
    if e == 0 {
        1
    } else {
        b * power(b, (e - 1) as nat)
    }
}

/// The number of passwords shorter than `k` over `b` characters.
pub open spec fn space_before(b: nat, k: nat) -> nat
    decreases k,
{
    if k == 0 {
        0
    } else {
        space_before(b, (k - 1) as nat) + power(b, (k - 1) as nat)
    }
}

/// A charset: between 2 and 126 distinct ASCII bytes, in increasing order.
pub open spec fn charset_ok(cs: Seq<u8>) -> bool {
    &&& 2 <= cs.len() <= 126
    &&& forall|i: int, j: int| 0 <= i < j < cs.len() ==> cs[i] < cs[j]
    &&& forall|i: int| 0 <= i < cs.len() ==> #[trigger] cs[i] < 128
}

/// Every byte of `p` is in the charset.
pub open spec fn over_charset(cs: Seq<u8>, p: Seq<u8>) -> bool {
    forall|i: int| 0 <= i < p.len() ==> cs.contains(#[trigger] p[i])
}

/// The position of byte `x` in the charset.
pub open spec fn char_index(cs: Seq<u8>, x: u8) -> int {
    choose|i: int| 0 <= i < cs.len() && cs[i] == x
}

/// The length of the password of counter `c`: the largest `k <= max_len`
/// with `space_before(b, k) <= c`.
pub open spec fn password_len(b: nat, max_len: nat, c: nat) -> nat
    decreases max_len,
{
    if max_len == 0 || space_before(b, max_len) <= c {
        max_len
    } else {
        password_len(b, (max_len - 1) as nat, c)
    }
}

/// The `k` base-`|cs|` digits of `v`, least significant first, as charset bytes.
pub open spec fn digits(cs: Seq<u8>, v: nat, k: nat) -> Seq<u8>
    decreases k,
{
    if k == 0 || cs.len() == 0 {
        seq![]
    } else {
        seq![cs[(v % cs.len()) as int]] + digits(cs, v / cs.len(), (k - 1) as nat)
    }
}

/// The number whose base-`|cs|` digits, least significant first, are the
/// positions of the bytes of `p` in the charset.
pub open spec fn digits_value(cs: Seq<u8>, p: Seq<u8>) -> nat
    decreases p.len(),
{
    if p.len() == 0 {
        0
    } else {
        char_index(cs, p[0]) as nat + cs.len() * digits_value(cs, p.drop_first())
    }
}

/// The password that counter `c` stands for.
pub open spec fn plaintext_of(cs: Seq<u8>, max_len: nat, c: nat) -> Seq<u8> {
    let k = password_len(cs.len(), max_len, c);
    digits(cs, (c - space_before(cs.len(), k)) as nat, k)
}

/// The counter of password `p`.
pub open spec fn counter_of(cs: Seq<u8>, p: Seq<u8>) -> nat {
    space_before(cs.len(), p.len()) + digits_value(cs, p)
}

/// The integer whose little-endian bytes are the first `k` bytes of `d`.
pub open spec fn le_value(d: Seq<u8>, k: nat) -> nat
    decreases k,
{
    if k == 0 {
        0
    } else {
        le_value(d, (k - 1) as nat) + d[k - 1] as nat * power(256, (k - 1) as nat)
    }
}

/// The reduction of digest `d` at column `i`: the first eight bytes of `d`,
/// little-endian, plus `i * tn`, both modulo 2^64, then modulo `n`.
pub open spec fn reduce_spec(d: Seq<u8>, i: u64, tn: u8, n: u64) -> nat
    recommends
        n > 0,
{
    ((le_value(d, 8) + (i as nat * tn as nat) % 0x1_0000_0000_0000_0000) % 0x1_0000_0000_0000_0000)
        % (n as nat)
}

/// Powers of a positive base are positive.
pub proof fn lemma_power_positive(b: nat, e: nat)
    requires
        b >= 1,
    ensures
        power(b, e) >= 1,
    decreases e,
{
    if e > 0 {
        lemma_power_positive(b, (e - 1) as nat);
        lemma_mul_inequality(1, b as int, power(b, (e - 1) as nat) as int);
    }
}

/// Powers of a positive base grow with the exponent.
pub proof fn lemma_power_monotone(b: nat, e1: nat, e2: nat)
    requires
        b >= 1,
        e1 <= e2,
    ensures
        power(b, e1) <= power(b, e2),
    decreases e2,
{
    if e1 < e2 {
        lemma_power_monotone(b, e1, (e2 - 1) as nat);
        lemma_power_positive(b, (e2 - 1) as nat);
        lemma_mul_inequality(1, b as int, power(b, (e2 - 1) as nat) as int);
    }
}

/// The spaces of shorter passwords grow with the length, strictly.
pub proof fn lemma_space_monotone(b: nat, j: nat, k: nat)
    requires
        b >= 1,
        j <= k,
    ensures
        space_before(b, j) <= space_before(b, k),
        j < k ==> space_before(b, j) < space_before(b, k),
    decreases k,
{
    if j < k {
        lemma_space_monotone(b, j, (k - 1) as nat);
        lemma_power_positive(b, (k - 1) as nat);
    }
}

/// Between the spaces of lengths `k` and `k + 1` lie exactly the counters of length `k`.
pub proof fn lemma_password_len(b: nat, max_len: nat, c: nat, k: nat)
    requires
        b >= 1,
        k <= max_len,
        space_before(b, k) <= c,
        k < max_len ==> c < space_before(b, k + 1),
    ensures
        password_len(b, max_len, c) == k,
    decreases max_len,
{
    if max_len > k {
        lemma_space_monotone(b, k + 1, max_len);
        lemma_password_len(b, (max_len - 1) as nat, c, k);
    }
}

/// The length of a counter's password is the last one whose space starts at or below it.
pub proof fn lemma_password_len_bounds(b: nat, max_len: nat, c: nat)
    requires
        b >= 1,
    ensures
        password_len(b, max_len, c) <= max_len,
        space_before(b, password_len(b, max_len, c)) <= c,
        password_len(b, max_len, c) < max_len ==> c < space_before(
            b,
            password_len(b, max_len, c) + 1,
        ),
    decreases max_len,
{
    if max_len > 0 && space_before(b, max_len) > c {
        lemma_password_len_bounds(b, (max_len - 1) as nat, c);
        let k = password_len(b, (max_len - 1) as nat, c);
        if k + 1 < max_len {
        } else {
            assert(k + 1 == max_len);
        }
    }
}

/// In a charset, the position of the byte at `i` is `i`.
pub proof fn lemma_char_index(cs: Seq<u8>, i: int)
    requires
        charset_ok(cs),
        0 <= i < cs.len(),
    ensures
        char_index(cs, cs[i]) == i,
{
    let j = char_index(cs, cs[i]);
    assert(0 <= j < cs.len() && cs[j] == cs[i]);
    if j < i {
        assert(cs[j] < cs[i]);
    } else if i < j {
        assert(cs[i] < cs[j]);
    }
}

/// The position of a byte of the charset holds that byte.
pub proof fn lemma_char_index_bound(cs: Seq<u8>, x: u8)
    requires
        cs.contains(x),
    ensures
        0 <= char_index(cs, x) < cs.len(),
        cs[char_index(cs, x)] == x,
{
}

/// Decoding the digits of a value gives the value back.
pub proof fn lemma_digits_value(cs: Seq<u8>, v: nat, k: nat)
    requires
        charset_ok(cs),
        v < power(cs.len(), k),
    ensures
        digits(cs, v, k).len() == k,
        digits_value(cs, digits(cs, v, k)) == v,
        over_charset(cs, digits(cs, v, k)),
    decreases k,
{
    let b = cs.len();
    if k == 0 {
        assert(digits(cs, v, k) =~= seq![]);
    } else {
        let d = digits(cs, v, k);
        let rest = digits(cs, v / b, (k - 1) as nat);
        lemma_fundamental_div_mod(v as int, b as int);
        lemma_mod_bound(v as int, b as int);
        assert(v / b < power(b, (k - 1) as nat)) by {
            if v / b >= power(b, (k - 1) as nat) {
                lemma_mul_inequality(power(b, (k - 1) as nat) as int, (v / b) as int, b as int);
                assert(b * (v / b) >= b * power(b, (k - 1) as nat)) by (nonlinear_arith)
                    requires
                        v / b >= power(b, (k - 1) as nat),
                        b >= 0,
                ;
            }
        }
        lemma_digits_value(cs, v / b, (k - 1) as nat);
        assert(d.drop_first() =~= rest);
        lemma_char_index(cs, (v % b) as int);
        assert forall|i: int| 0 <= i < d.len() implies cs.contains(#[trigger] d[i]) by {
            if i == 0 {
                assert(cs[(v % b) as int] == d[0]);
            } else {
                assert(d[i] == rest[i - 1]);
            }
        }
    }
}

/// The digits value of a password of length `k` is below `b^k`.
pub proof fn lemma_value_bound(cs: Seq<u8>, p: Seq<u8>)
    requires
        charset_ok(cs),
        over_charset(cs, p),
    ensures
        digits_value(cs, p) < power(cs.len(), p.len()),
    decreases p.len(),
{
    if p.len() > 0 {
        let b = cs.len();
        let rest = p.drop_first();
        assert(over_charset(cs, rest)) by {
            assert forall|i: int| 0 <= i < rest.len() implies cs.contains(#[trigger] rest[i]) by {
                assert(rest[i] == p[i + 1]);
            }
        }
        lemma_value_bound(cs, rest);
        assert(cs.contains(p[0]));
        lemma_char_index_bound(cs, p[0]);
        let x = char_index(cs, p[0]);
        let r = digits_value(cs, rest);
        let pw = power(b, rest.len());
        assert(p.len() - 1 == rest.len());
        assert(x + b * r < b * pw) by (nonlinear_arith)
            requires
                0 <= x < b,
                r < pw,
        ;
    }
}

/// Encoding the value of a password into digits gives the password back.
pub proof fn lemma_value_digits(cs: Seq<u8>, p: Seq<u8>)
    requires
        charset_ok(cs),
        over_charset(cs, p),
    ensures
        digits(cs, digits_value(cs, p), p.len()) == p,
    decreases p.len(),
{
    if p.len() > 0 {
        let b = cs.len();
        let rest = p.drop_first();
        assert(over_charset(cs, rest)) by {
            assert forall|i: int| 0 <= i < rest.len() implies cs.contains(#[trigger] rest[i]) by {
                assert(rest[i] == p[i + 1]);
            }
        }
        lemma_value_digits(cs, rest);
        assert(cs.contains(p[0]));
        lemma_char_index_bound(cs, p[0]);
        let x = char_index(cs, p[0]);
        let r = digits_value(cs, rest);
        let v = digits_value(cs, p);
        assert(v == x + b * r);
        assert(v % b == x && v / b == r) by {
            vstd::arithmetic::div_mod::lemma_fundamental_div_mod_converse(
                v as int,
                b as int,
                r as int,
                x as int,
            );
        }
        assert(digits(cs, v, p.len()) =~= p);
    }
}

/// A counter below the space size decodes to a password that encodes back
/// to the same counter.
pub proof fn lemma_counter_round_trip(cs: Seq<u8>, max_len: nat, c: nat)
    requires
        charset_ok(cs),
        c < space_before(cs.len(), max_len + 1),
    ensures
        plaintext_of(cs, max_len, c).len() <= max_len,
        over_charset(cs, plaintext_of(cs, max_len, c)),
        counter_of(cs, plaintext_of(cs, max_len, c)) == c,
{
    let b = cs.len();
    lemma_password_len_bounds(b, max_len, c);
    let k = password_len(b, max_len, c);
    let v = (c - space_before(b, k)) as nat;
    assert(c < space_before(b, k + 1)) by {
        if k == max_len {
        }
    }
    assert(v < power(b, k));
    lemma_digits_value(cs, v, k);
}

/// A password over the charset, no longer than `max_len`, encodes to a
/// counter that decodes back to the same password.
pub proof fn lemma_password_round_trip(cs: Seq<u8>, max_len: nat, p: Seq<u8>)
    requires
        charset_ok(cs),
        over_charset(cs, p),
        p.len() <= max_len,
    ensures
        counter_of(cs, p) < space_before(cs.len(), max_len + 1),
        plaintext_of(cs, max_len, counter_of(cs, p)) == p,
{
    let b = cs.len();
    let c = counter_of(cs, p);
    lemma_value_bound(cs, p);
    lemma_space_monotone(b, p.len() + 1, max_len + 1);
    lemma_password_len(b, max_len, c, p.len());
    lemma_value_digits(cs, p);
}

/// Every decoded password is at most `max_len` long and over the charset.
pub proof fn lemma_plaintext_len(cs: Seq<u8>, max_len: nat, c: nat)
    requires
        charset_ok(cs),
    ensures
        plaintext_of(cs, max_len, c).len() <= max_len,
{
    lemma_password_len_bounds(cs.len(), max_len, c);
    lemma_digits_len(cs, (c - space_before(cs.len(), password_len(cs.len(), max_len, c))) as nat,
        password_len(cs.len(), max_len, c));
}

/// `digits` gives exactly `k` bytes.
pub proof fn lemma_digits_len(cs: Seq<u8>, v: nat, k: nat)
    requires
        cs.len() > 0,
    ensures
        digits(cs, v, k).len() == k,
    decreases k,
{
    if k > 0 {
        lemma_digits_len(cs, v / cs.len(), (k - 1) as nat);
    }
}

/// A well-formed context has at least one password.
pub proof fn lemma_space_nonempty(ctx: &RainbowTableCtx)
    requires
        ctx.space_wf(),
    ensures
        ctx.n > 0,
{
    lemma_space_monotone(ctx.charset@.len(), 0, ctx.max_len() + 1);
}

/// Converts a character from a charset to its ASCII representation.
pub fn charset_to_ascii(n: u64, charset: &[u8]) -> (r: u8)
    requires
        n < charset@.len(),
    ensures
        r == charset@[n as int],
{
    charset[n as usize]
}

/// Converts an ASCII character to its position in the given charset: the
/// first position that holds it.
pub fn ascii_to_charset(c: u8, charset: &[u8]) -> (r: u8)
    requires
        charset@.contains(c),
        charset@.len() <= 256,
    ensures
        r < charset@.len(),
        charset@[r as int] == c,
        forall|j: int| 0 <= j < r ==> charset@[j] != c,
{
    let mut i: usize = 0;
    while i < charset.len()
        invariant
            0 <= i <= charset@.len(),
            charset@.len() <= 256,
            charset@.contains(c),
            forall|j: int| 0 <= j < i ==> charset@[j] != c,
        decreases charset@.len() - i,
    {
        if charset[i] == c {
            return i as u8;
        }
        i += 1;
    }
    0
}

/// Creates a plaintext from a counter.
pub fn counter_to_plaintext(counter: CompressedPassword, ctx: &RainbowTableCtx) -> (r: Vec<u8>)
    requires
        ctx.space_wf(),
    ensures
        r@ == plaintext_of(ctx.charset@, ctx.max_len(), counter as nat),
{
    let ghost cs = ctx.charset@;
    let ghost b = cs.len();
    let ghost ml = ctx.max_len();
    let mut len: usize = ctx.max_password_length as usize;
    while ctx.search_spaces[len] > counter
        invariant
            ctx.space_wf(),
            cs == ctx.charset@,
            b == cs.len(),
            ml == ctx.max_len(),
            0 <= len <= ml,
            len < ml ==> counter < space_before(b, (len + 1) as nat),
        decreases len,
    {
        assert(len > 0) by {
            assert(ctx.search_spaces@[0] == space_before(b, 0));
        }
        len -= 1;
    }
    proof {
        lemma_password_len(b, ml, counter as nat, len as nat);
    }
    let mut value: u64 = counter - ctx.search_spaces[len];
    let base: u64 = ctx.charset.len() as u64;
    let ghost v0 = value as nat;
    let mut plaintext: Vec<u8> = Vec::new();
    let mut i: usize = 0;
    while i < len
        invariant
            cs == ctx.charset@,
            b == cs.len(),
            base == b,
            2 <= b,
            0 <= i <= len,
            plaintext@ + digits(cs, value as nat, (len - i) as nat) == digits(cs, v0, len as nat),
        decreases len - i,
    {
        let ghost before = plaintext@;
        let ghost v = value as nat;
        let ghost m = (len - i) as nat;
        let x = charset_to_ascii(value % base, &ctx.charset);
        assert(digits(cs, v, m) == seq![x] + digits(cs, v / b, (m - 1) as nat));
        plaintext.push(x);
        value = value / base;
        i += 1;
        assert(plaintext@ + digits(cs, value as nat, (len - i) as nat) =~= before + digits(
            cs,
            v,
            m,
        ));
    }
    assert(digits(cs, value as nat, 0) =~= seq![]);
    assert(plaintext@ =~= digits(cs, v0, len as nat));
    plaintext
}

/// Appending a byte adds its digit at the most significant place.
pub proof fn lemma_value_push(cs: Seq<u8>, p: Seq<u8>, x: u8)
    ensures
        digits_value(cs, p.push(x)) == digits_value(cs, p) + char_index(cs, x) as nat * power(
            cs.len(),
            p.len(),
        ),
    decreases p.len(),
{
    let b = cs.len();
    if p.len() == 0 {
        assert(p.push(x).drop_first() =~= seq![]);
        assert(digits_value(cs, seq![]) == 0);
        assert(b * 0 == 0) by (nonlinear_arith);
        assert(p.push(x)[0] == x);
        assert(power(b, 0) == 1);
        assert(digits_value(cs, p.push(x)) == char_index(cs, x) as nat + b * digits_value(cs, seq![]));
    } else {
        let rest = p.drop_first();
        assert(p.push(x).drop_first() =~= rest.push(x));
        assert(p.push(x)[0] == p[0]);
        lemma_value_push(cs, rest, x);
        let ci = char_index(cs, x) as nat;
        let pw = power(b, rest.len());
        assert(b * (digits_value(cs, rest) + ci * pw) == b * digits_value(cs, rest) + ci * (b
            * pw)) by (nonlinear_arith);
        assert(power(b, p.len()) == b * pw);
        assert(digits_value(cs, p.push(x)) == char_index(cs, p[0]) as nat + b * digits_value(cs, rest.push(x)));
        assert(digits_value(cs, p) == char_index(cs, p[0]) as nat + b * digits_value(cs, rest));
        assert(rest.len() == p.len() - 1);
        assert(digits_value(cs, rest.push(x)) == digits_value(cs, rest) + ci * pw);
        let a = char_index(cs, p[0]) as nat;
        let dr = digits_value(cs, rest);
        assert(a + b * (dr + ci * pw) == (a + b * dr) + ci * (b * pw)) by (nonlinear_arith);
    }
}

/// Creates a counter from a plaintext.
pub fn plaintext_to_counter(plaintext: Vec<u8>, ctx: &RainbowTableCtx) -> (r: CompressedPassword)
    requires
        ctx.space_wf(),
        plaintext@.len() <= ctx.max_len(),
        over_charset(ctx.charset@, plaintext@),
    ensures
        r == counter_of(ctx.charset@, plaintext@),
        r < ctx.n,
{
    let ghost cs = ctx.charset@;
    let ghost b = cs.len();
    let ghost p = plaintext@;
    proof {
        lemma_value_bound(cs, p);
        lemma_space_monotone(b, p.len() + 1, ctx.max_len() + 1);
    }
    let mut counter: u64 = ctx.search_spaces[plaintext.len()];
    let base: u64 = ctx.charset.len() as u64;
    let mut charset_base: u64 = 1;
    let mut i: usize = 0;
    while i < plaintext.len()
        invariant
            ctx.space_wf(),
            cs == ctx.charset@,
            b == cs.len(),
            base == b,
            p == plaintext@,
            over_charset(cs, p),
            p.len() <= ctx.max_len(),
            0 <= i <= p.len(),
            charset_base == power(b, i as nat),
            counter == space_before(b, p.len()) + digits_value(cs, p.take(i as int)),
            space_before(b, p.len()) + power(b, p.len()) <= ctx.n,
        decreases p.len() - i,
    {
        let ghost pre = p.take(i as int);
        assert(cs.contains(p[i as int]));
        let d = ascii_to_charset(plaintext[i], &ctx.charset);
        proof {
            lemma_char_index(cs, d as int);
            lemma_char_index_bound(cs, p[i as int]);
            lemma_value_push(cs, pre, p[i as int]);
            assert(p.take(i + 1) =~= pre.push(p[i as int]));
            let rest = p.subrange(i + 1, p.len() as int);
            assert(over_charset(cs, p.take(i + 1))) by {
                assert forall|j: int| 0 <= j < i + 1 implies cs.contains(#[trigger] p.take(i + 1)[j]) by {
                    assert(p.take(i + 1)[j] == p[j]);
                }
            }
            lemma_value_bound(cs, p.take(i + 1));
            lemma_power_monotone(b, (i + 1) as nat, p.len());
            assert(power(b, (i + 1) as nat) == b * power(b, i as nat));
        }
        counter = counter + d as u64 * charset_base;
        proof {
            assert(charset_base * base <= ctx.n) by (nonlinear_arith)
                requires
                    charset_base * base == power(b, (i + 1) as nat),
                    power(b, (i + 1) as nat) <= power(b, p.len()),
                    space_before(b, p.len()) + power(b, p.len()) <= ctx.n,
            ;
        }
        charset_base = charset_base * base;
        i += 1;
    }
    assert(p.take(p.len() as int) =~= p);
    counter
}

proof fn lemma_power_256()
    ensures
        power(256, 7) == 0x1_0000_0000_0000_00,
        power(256, 8) == 0x1_0000_0000_0000_0000,
{
    reveal_with_fuel(power, 9);
}

/// Reduces a digest into a counter of the context's space.
pub fn reduce(digest: &Vec<u8>, iteration: u64, ctx: &RainbowTableCtx) -> (r: CompressedPassword)
    requires
        digest@.len() >= 8,
        ctx.n > 0,
    ensures
        r == reduce_spec(digest@, iteration, ctx.tn, ctx.n),
        r < ctx.n,
{
    let mut seed: u64 = 0;
    let mut mul: u64 = 1;
    let mut i: usize = 0;
    while i < 8
        invariant
            0 <= i <= 8,
            digest@.len() >= 8,
            seed == le_value(digest@, i as nat),
            seed < power(256, i as nat),
            i < 8 ==> mul == power(256, i as nat),
        decreases 8 - i,
    {
        let byte = digest[i];
        let ghost pw = power(256, i as nat);
        proof {
            assert(power(256, (i + 1) as nat) == 256 * pw);
            lemma_power_256();
            lemma_power_monotone(256, (i + 1) as nat, 8);
            assert(seed + byte * pw < 256 * pw) by (nonlinear_arith)
                requires
                    seed < pw,
                    byte < 256,
            ;
        }
        seed = seed + byte as u64 * mul;
        if i < 7 {
            proof {
                lemma_power_monotone(256, (i + 1) as nat, 7);
                lemma_power_256();
            }
            mul = mul * 256;
        }
        i += 1;
    }
    let step = iteration.wrapping_mul(ctx.tn as u64);
    let sum = seed.wrapping_add(step);
    proof {
        lemma_power_256();
        assert(step == (iteration as nat * ctx.tn as nat) % 0x1_0000_0000_0000_0000);
        assert(sum == (seed as nat + step as nat) % 0x1_0000_0000_0000_0000);
    }
    sum % ctx.n
}

} // verus!
