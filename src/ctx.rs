use vstd::prelude::*;

use crate::codec::{charset_ok, lemma_power_monotone, lemma_space_monotone, power, space_before};
use crate::error::CugparckError;
use crate::hash::HashFunction;
use crate::MAX_PASSWORD_LENGTH_ALLOWED;

verus! {

/// Context used to store all parameters used to generate a rainbow table.
#[derive(Clone, Debug)]
pub struct RainbowTableCtx {
    /// The number of starting chains to generate.
    pub m0: u64,
    /// The hash function used.
    pub hash_function: HashFunction,
    /// The charset used, sorted.
    pub charset: Vec<u8>,
    /// The length of a chain.
    pub t: u64,
    /// The maximum password length.
    pub max_password_length: u8,
    /// The size of the total search space.
    pub n: u64,
    /// `search_spaces[k]` is the number of passwords shorter than `k`.
    pub search_spaces: Vec<u64>,
    /// The table number, 1-indexed.
    pub tn: u8,
}

impl RainbowTableCtx {
    /// The charset, the prefix sums and the space size agree with each other.
    pub open spec fn space_wf(&self) -> bool {
        let b = self.charset@.len();
        &&& charset_ok(self.charset@)
        &&& self.max_password_length <= MAX_PASSWORD_LENGTH_ALLOWED
        &&& self.search_spaces@.len() == self.max_password_length + 1
        &&& forall|k: int|
            0 <= k <= self.max_password_length ==> #[trigger] self.search_spaces@[k]
                == space_before(b, k as nat)
        &&& self.n == space_before(b, self.max_password_length as nat + 1)
    }

    /// A context that a table can be built from.
    pub open spec fn wf(&self) -> bool {
        &&& self.space_wf()
        &&& self.t >= 2
        &&& 1 <= self.m0 <= self.n
        &&& self.tn >= 1
    }

    /// Both contexts hold the same parameters.
    pub open spec fn same_as(&self, o: &Self) -> bool {
        &&& self.m0 == o.m0
        &&& self.hash_function == o.hash_function
        &&& self.charset@ == o.charset@
        &&& self.t == o.t
        &&& self.max_password_length == o.max_password_length
        &&& self.n == o.n
        &&& self.search_spaces@ == o.search_spaces@
        &&& self.tn == o.tn
    }

    /// A copy of the context.
    pub fn duplicate(&self) -> (r: Self)
        ensures
            r.same_as(self),
    {
        let mut search_spaces: Vec<u64> = Vec::new();
        let mut i: usize = 0;
        while i < self.search_spaces.len()
            invariant
                0 <= i <= self.search_spaces@.len(),
                search_spaces@ == self.search_spaces@.take(i as int),
            decreases self.search_spaces@.len() - i,
        {
            search_spaces.push(self.search_spaces[i]);
            i += 1;
            assert(search_spaces@ =~= self.search_spaces@.take(i as int));
        }
        assert(self.search_spaces@.take(i as int) =~= self.search_spaces@);
        RainbowTableCtx {
            m0: self.m0,
            hash_function: self.hash_function,
            charset: copy_bytes(self.charset.as_slice()),
            t: self.t,
            max_password_length: self.max_password_length,
            n: self.n,
            search_spaces,
            tn: self.tn,
        }
    }

    /// The number of characters.
    pub open spec fn base(&self) -> nat {
        self.charset@.len()
    }

    /// The maximum password length as a natural number.
    pub open spec fn max_len(&self) -> nat {
        self.max_password_length as nat
    }
}

/// The default chain length.
pub const DEFAULT_CHAIN_LENGTH: u64 = 10_000;

/// The default maximality factor, in millionths.
pub const DEFAULT_ALPHA_MILLIONTHS: u32 = 952_000;

/// The maximality factor of a maximal table, in millionths.
pub const ALPHA_ONE: u32 = 1_000_000;

/// The default maximum password length.
pub const DEFAULT_MAX_PASSWORD_LENGTH: u8 = 6;

/// The default table number.
pub const DEFAULT_TABLE_NUMBER: u8 = 0;

/// The default charset: the digits, the capital letters, the small
/// letters, `-` and `_`.
pub open spec fn default_charset_spec() -> Seq<u8> {
    Seq::new(10, |i: int| (48 + i) as u8) + Seq::new(26, |i: int| (65 + i) as u8) + Seq::new(
        26,
        |i: int| (97 + i) as u8,
    ) + seq![45u8, 95u8]
}

/// The default charset.
pub fn default_charset() -> (r: Vec<u8>)
    ensures
        r@ == default_charset_spec(),
{
    let mut v: Vec<u8> = Vec::new();
    let mut c: u8 = 48u8;
    while c <= 57u8
        invariant
            48u8 <= c <= 57u8 + 1,
            v@ =~= Seq::new((c - 48) as nat, |i: int| (48 + i) as u8),
        decreases 57u8 + 1 - c,
    {
        v.push(c);
        c += 1;
    }
    let ghost digits = v@;
    let mut c: u8 = 65u8;
    while c <= 90u8
        invariant
            65u8 <= c <= 90u8 + 1,
            v@ =~= digits + Seq::new((c - 65) as nat, |i: int| (65 + i) as u8),
        decreases 90u8 + 1 - c,
    {
        v.push(c);
        c += 1;
    }
    let ghost upper = v@;
    let mut c: u8 = 97u8;
    while c <= 122u8
        invariant
            97u8 <= c <= 122u8 + 1,
            v@ =~= upper + Seq::new((c - 97) as nat, |i: int| (97 + i) as u8),
        decreases 122u8 + 1 - c,
    {
        v.push(c);
        c += 1;
    }
    v.push(45u8);
    v.push(95u8);
    assert(v@ =~= default_charset_spec());
    v
}

/// The number of startpoints derived from the maximality factor `alpha`
/// (in millionths): `alpha / (1 - alpha) * 2n / (t + 2)`, rounded down and
/// clamped to `[1, n]`; `n` for a maximal factor.
pub open spec fn startpoints_for(alpha: u32, n: nat, t: nat) -> nat {
    if alpha >= ALPHA_ONE {
        n
    } else {
        let m = (alpha as nat * 2 * n) / ((ALPHA_ONE - alpha) as nat * (t + 2));
        if m < 1 {
            1
        } else if m > n {
            n
        } else {
            m
        }
    }
}

/// The number of bits needed to count `n` values, capped at 128:
/// the least `k` with `n <= 2^k`.
pub open spec fn bits_for(n: nat) -> nat
    decreases 128 - 0,
{
    bits_from(n, 0)
}

/// The least `k >= from` with `n <= 2^k`, capped at 128.
pub open spec fn bits_from(n: nat, from: nat) -> nat
    decreases 128 - from,
{
    if from >= 128 || n <= power(2, from) {
        from
    } else {
        bits_from(n, from + 1)
    }
}

proof fn lemma_power2_127()
    ensures
        power(2, 127) < u128::MAX,
{
    lemma_power_add(2, 64, 63);
    lemma_power2_64();
    lemma_power2_63();
    assert(power(2, 64) * power(2, 63) < u128::MAX) by (nonlinear_arith)
        requires power(2, 64) == 0x1_0000_0000_0000_0000, power(2, 63) == 0x8000_0000_0000_0000;
}

proof fn lemma_power2_64()
    ensures
        power(2, 64) == 0x1_0000_0000_0000_0000,
{
    reveal_with_fuel(power, 65);
}

proof fn lemma_power2_63()
    ensures
        power(2, 63) == 0x8000_0000_0000_0000,
{
    reveal_with_fuel(power, 64);
}

proof fn lemma_power_add(b: nat, x: nat, y: nat)
    ensures
        power(b, x + y) == power(b, x) * power(b, y),
    decreases x,
{
    if x > 0 {
        lemma_power_add(b, (x - 1) as nat, y);
        assert(power(b, x + y) == b * power(b, ((x - 1) + y) as nat));
        assert(power(b, x) == b * power(b, (x - 1) as nat));
        assert(b * (power(b, (x - 1) as nat) * power(b, y)) == (b * power(b, (x - 1) as nat))
            * power(b, y)) by (nonlinear_arith);
    } else {
        assert(power(b, 0) == 1);
        assert(x + y == y);
    }
}

/// A value above `u128::MAX` needs 128 bits, at the cap.
proof fn lemma_bits_saturated(n: nat, k: nat)
    requires
        n > u128::MAX,
        k <= 128,
    ensures
        bits_from(n, k) == 128,
    decreases 128 - k,
{
    if k < 128 {
        lemma_power2_127();
        lemma_power_monotone(2, k, 127);
        lemma_bits_saturated(n, k + 1);
    }
}

/// The number of startpoints for maximality factor `alpha` in millionths.
fn startpoints_from_alpha(alpha: u32, n: u64, t: u64) -> (r: u64)
    requires
        n >= 1,
    ensures
        r == startpoints_for(alpha, n as nat, t as nat),
{
    if alpha >= ALPHA_ONE {
        return n;
    }
    assert(alpha as u128 * 2 * n as u128 <= 2_000_000 * 0x1_0000_0000_0000_0000) by (nonlinear_arith)
        requires alpha < 1_000_000, n <= u64::MAX;
    let num: u128 = alpha as u128 * 2 * n as u128;
    assert((ALPHA_ONE - alpha) as u128 * (t as u128 + 2) <= 1_000_000 * 0x1_0000_0000_0000_0002) by (nonlinear_arith)
        requires alpha < 1_000_000, t <= u64::MAX;
    let den: u128 = (ALPHA_ONE - alpha) as u128 * (t as u128 + 2);
    proof {
        assert(den > 0) by (nonlinear_arith)
            requires den == (ALPHA_ONE - alpha) as u128 * (t as u128 + 2), alpha < ALPHA_ONE;
    }
    let m: u128 = num / den;
    if m < 1 {
        1
    } else if m > n as u128 {
        n
    } else {
        m as u64
    }
}

/// The bits needed by a space that overflows 2^64, capped at 128: `n` is the
/// space of length `k + 1` and `pw` is `base^k`.
fn space_bits(base: u128, n: u128, pw: u128, k: u8, len: u8) -> (r: u8)
    requires
        2 <= base <= 126,
        k <= len <= MAX_PASSWORD_LENGTH_ALLOWED,
        n == space_before(base as nat, k as nat + 1),
        pw == power(base as nat, k as nat),
        n > u64::MAX,
        pw <= n,
    ensures
        r == bits_for(space_before(base as nat, len as nat + 1)),
{
    // the rest of the space, saturated at u128::MAX
    let mut total: u128 = n;
    let mut p: u128 = pw;
    let mut i: u8 = k + 1;
    let mut saturated = false;
    while i <= len
        invariant
            k + 1 <= i <= len + 1,
            len <= MAX_PASSWORD_LENGTH_ALLOWED,
            2 <= base <= 126,
            !saturated ==> total == space_before(base as nat, i as nat),
            !saturated ==> p == power(base as nat, (i - 1) as nat),
            saturated ==> space_before(base as nat, i as nat) > u128::MAX,
        decreases len + 1 - i,
    {
        if !saturated {
            if p > u128::MAX / base {
                saturated = true;
                proof {
                    assert(p * base > u128::MAX) by (nonlinear_arith)
                        requires p > u128::MAX / base, base >= 2;
                    assert(power(base as nat, i as nat) == base * p);
                }
            } else {
                proof {
                    assert(p * base <= u128::MAX) by (nonlinear_arith)
                        requires p <= u128::MAX / base, base >= 2;
                }
                p = p * base;
                if total > u128::MAX - p {
                    saturated = true;
                } else {
                    total = total + p;
                }
            }
        } else {
            proof {
                lemma_space_monotone(base as nat, i as nat, i as nat + 1);
            }
        }
        i += 1;
    }
    if saturated {
        proof {
            lemma_bits_saturated(space_before(base as nat, len as nat + 1), 0);
        }
        return 128;
    }
    let mut bits: u8 = 0;
    let mut p2: u128 = 1;
    while bits < 128 && total > p2
        invariant
            0 <= bits <= 128,
            bits < 128 ==> p2 == power(2, bits as nat),
            bits_for(total as nat) == bits_from(total as nat, bits as nat),
        decreases 128 - bits,
    {
        if bits < 127 {
            proof {
                lemma_power2_127();
                lemma_power_monotone(2, bits as nat, 126);
                assert(power(2, 127) == 2 * power(2, 126));
            }
            p2 = p2 * 2;
        }
        bits += 1;
    }
    bits
}

/// A copy of a byte slice.
pub fn copy_bytes(s: &[u8]) -> (r: Vec<u8>)
    ensures
        r@ == s@,
{
    let mut v: Vec<u8> = Vec::new();
    let mut i: usize = 0;
    while i < s.len()
        invariant
            0 <= i <= s@.len(),
            v@ == s@.take(i as int),
        decreases s@.len() - i,
    {
        v.push(s[i]);
        i += 1;
        assert(v@ =~= s@.take(i as int));
    }
    assert(s@.take(i as int) =~= s@);
    v
}

/// A builder for a rainbow table context.
#[derive(Clone, Debug)]
pub struct RainbowTableCtxBuilder {
    pub hash_function: HashFunction,
    pub charset: Vec<u8>,
    pub t: u64,
    pub tn: u8,
    pub max_password_length: u8,
    pub m0: Option<u64>,
    /// The maximality factor, in millionths.
    pub alpha: u32,
}

/// The distinct bytes below `k` of `cs`, in increasing order.
pub open spec fn charset_upto(cs: Seq<u8>, k: nat) -> Seq<u8>
    decreases k,
{
    if k == 0 {
        seq![]
    } else {
        let r = charset_upto(cs, (k - 1) as nat);
        if cs.contains((k - 1) as u8) {
            r.push((k - 1) as u8)
        } else {
            r
        }
    }
}

/// The charset a builder's bytes make: their distinct values, sorted.
pub open spec fn sorted_charset(cs: Seq<u8>) -> Seq<u8> {
    charset_upto(cs, 128)
}

/// The bytes make a charset: all ASCII, between 2 and 126 distinct values.
pub open spec fn charset_valid(cs: Seq<u8>) -> bool {
    &&& forall|i: int| 0 <= i < cs.len() ==> #[trigger] cs[i] < 128
    &&& 2 <= sorted_charset(cs).len() <= 126
}

proof fn lemma_charset_upto(cs: Seq<u8>, k: nat)
    requires
        k <= 256,
    ensures
        forall|i: int, j: int| 0 <= i < j < charset_upto(cs, k).len() ==> charset_upto(cs, k)[i]
            < charset_upto(cs, k)[j],
        forall|i: int| 0 <= i < charset_upto(cs, k).len() ==> #[trigger] charset_upto(cs, k)[i] < k,
        forall|x: u8| #[trigger] charset_upto(cs, k).contains(x) <==> (x < k && cs.contains(x)),
    decreases k,
{
    if k > 0 {
        lemma_charset_upto(cs, (k - 1) as nat);
        let r = charset_upto(cs, (k - 1) as nat);
        assert forall|x: u8| #[trigger] charset_upto(cs, k).contains(x) <==> (x < k && cs.contains(x)) by {
            if cs.contains((k - 1) as u8) {
                if r.push((k - 1) as u8).contains(x) {
                    let i = choose|i: int| 0 <= i < r.len() + 1 && #[trigger] r.push((k - 1) as u8)[i] == x;
                    if i < r.len() {
                        assert(r.contains(x));
                    }
                }
                if x < k && cs.contains(x) {
                    if x < k - 1 {
                        assert(r.contains(x));
                        let i = choose|i: int| 0 <= i < r.len() && r[i] == x;
                        assert(r.push((k - 1) as u8)[i] == x);
                    } else {
                        assert(r.push((k - 1) as u8)[r.len() as int] == x);
                    }
                }
            } else {
                if r.contains(x) {
                    assert(x < k - 1);
                }
            }
        }
    }
}

/// Whether `x` is one of the bytes of `cs`.
fn contains_byte(cs: &Vec<u8>, x: u8) -> (r: bool)
    ensures
        r == cs@.contains(x),
{
    let mut i: usize = 0;
    while i < cs.len()
        invariant
            0 <= i <= cs@.len(),
            forall|j: int| 0 <= j < i ==> cs@[j] != x,
        decreases cs@.len() - i,
    {
        if cs[i] == x {
            return true;
        }
        i += 1;
    }
    false
}

impl RainbowTableCtxBuilder {
    /// Creates a new builder with the default parameters.
    pub fn new() -> (r: Self)
        ensures
            r.hash_function == HashFunction::Ntlm,
            r.charset@ == default_charset_spec(),
            r.t == DEFAULT_CHAIN_LENGTH,
            r.tn == DEFAULT_TABLE_NUMBER + 1,
            r.max_password_length == DEFAULT_MAX_PASSWORD_LENGTH,
            r.m0 == None::<u64>,
            r.alpha == DEFAULT_ALPHA_MILLIONTHS,
    {
        RainbowTableCtxBuilder {
            hash_function: HashFunction::Ntlm,
            charset: default_charset(),
            max_password_length: DEFAULT_MAX_PASSWORD_LENGTH,
            t: DEFAULT_CHAIN_LENGTH,
            tn: DEFAULT_TABLE_NUMBER + 1,
            m0: None,
            alpha: DEFAULT_ALPHA_MILLIONTHS,
        }
    }

    /// Sets the hash function of the context.
    pub fn hash(self, hash_function: HashFunction) -> (r: Self)
        ensures
            r == (Self { hash_function, ..self }),
    {
        Self { hash_function, ..self }
    }

    /// Sets the charset of the context.
    pub fn charset(self, charset: &[u8]) -> (r: Self)
        ensures
            r == (Self { charset: r.charset, ..self }),
            r.charset@ == charset@,
    {
        Self { charset: copy_bytes(charset), ..self }
    }

    /// Sets the length of the chains.
    pub fn chain_length(self, chain_length: u64) -> (r: Self)
        ensures
            r == (Self { t: chain_length, ..self }),
    {
        Self { t: chain_length, ..self }
    }

    /// Sets the maximum password length of the context.
    pub fn max_password_length(self, max_password_length: u8) -> (r: Self)
        ensures
            r == (Self { max_password_length, ..self }),
    {
        Self { max_password_length, ..self }
    }

    /// Sets the table number of the context (stored 1-indexed, so that the
    /// reduction of every table depends on it).
    pub fn table_number(self, table_number: u8) -> (r: Self)
        requires
            table_number < 255,
        ensures
            r == (Self { tn: (table_number + 1) as u8, ..self }),
    {
        Self { tn: table_number + 1, ..self }
    }

    /// Sets the number of startpoints; `None` derives it from the maximality factor.
    pub fn startpoints(self, startpoints: Option<u64>) -> (r: Self)
        ensures
            r == (Self { m0: startpoints, ..self }),
    {
        Self { m0: startpoints, ..self }
    }

    /// Builds a context with the specified parameters.
    pub fn build(self) -> (r: Result<RainbowTableCtx, CugparckError>)
        ensures
            self.max_password_length > MAX_PASSWORD_LENGTH_ALLOWED ==> r == Err::<RainbowTableCtx, CugparckError>(
                CugparckError::MaxPasswordLengthExceeded(MAX_PASSWORD_LENGTH_ALLOWED),
            ),
            self.max_password_length <= MAX_PASSWORD_LENGTH_ALLOWED && !charset_valid(self.charset@)
                ==> r == Err::<RainbowTableCtx, CugparckError>(CugparckError::Charset),
            self.max_password_length <= MAX_PASSWORD_LENGTH_ALLOWED && charset_valid(self.charset@)
                && (self.t < 2 || self.tn == 0) ==> r == Err::<RainbowTableCtx, CugparckError>(
                CugparckError::InvalidParameter,
            ),
            self.max_password_length <= MAX_PASSWORD_LENGTH_ALLOWED && charset_valid(self.charset@)
                && self.t >= 2 && self.tn >= 1 && space_before(
                sorted_charset(self.charset@).len(),
                self.max_password_length as nat + 1,
            ) > u64::MAX ==> r == Err::<RainbowTableCtx, CugparckError>(
                CugparckError::Space(
                    bits_for(
                        space_before(
                            sorted_charset(self.charset@).len(),
                            self.max_password_length as nat + 1,
                        ),
                    ) as u8,
                ),
            ),
            self.max_password_length <= MAX_PASSWORD_LENGTH_ALLOWED && charset_valid(self.charset@)
                && self.t >= 2 && self.tn >= 1 && space_before(
                sorted_charset(self.charset@).len(),
                self.max_password_length as nat + 1,
            ) <= u64::MAX ==> r is Ok,
            r matches Ok(ctx) ==> {
                &&& self.max_password_length <= MAX_PASSWORD_LENGTH_ALLOWED
                &&& charset_valid(self.charset@)
                &&& self.t >= 2
                &&& self.tn >= 1
                &&& ctx.wf()
                &&& ctx.charset@ == sorted_charset(self.charset@)
                &&& ctx.hash_function == self.hash_function
                &&& ctx.t == self.t
                &&& ctx.tn == self.tn
                &&& ctx.max_password_length == self.max_password_length
                &&& ctx.m0 == match self.m0 {
                    Some(m) => if m < 1 {
                        1
                    } else if m > ctx.n {
                        ctx.n as nat
                    } else {
                        m as nat
                    },
                    None => startpoints_for(self.alpha, ctx.n as nat, self.t as nat),
                }
            },
    {
        if self.max_password_length > MAX_PASSWORD_LENGTH_ALLOWED {
            return Err(CugparckError::MaxPasswordLengthExceeded(MAX_PASSWORD_LENGTH_ALLOWED));
        }
        // the charset: its distinct ASCII bytes, sorted
        let mut i: usize = 0;
        while i < self.charset.len()
            invariant
                0 <= i <= self.charset@.len(),
                self.max_password_length <= MAX_PASSWORD_LENGTH_ALLOWED,
                forall|j: int| 0 <= j < i ==> #[trigger] self.charset@[j] < 128,
            decreases self.charset@.len() - i,
        {
            if self.charset[i] >= 128 {
                return Err(CugparckError::Charset);
            }
            i += 1;
        }
        let mut charset: Vec<u8> = Vec::new();
        let mut x: u16 = 0;
        while x < 128
            invariant
                0 <= x <= 128,
                self.max_password_length <= MAX_PASSWORD_LENGTH_ALLOWED,
                forall|j: int| 0 <= j < self.charset@.len() ==> #[trigger] self.charset@[j] < 128,
                charset@ == charset_upto(self.charset@, x as nat),
            decreases 128 - x,
        {
            if contains_byte(&self.charset, x as u8) {
                charset.push(x as u8);
            }
            x += 1;
        }
        proof {
            lemma_charset_upto(self.charset@, 128);
        }
        if charset.len() < 2 || charset.len() > 126 {
            return Err(CugparckError::Charset);
        }
        if self.t < 2 || self.tn == 0 {
            return Err(CugparckError::InvalidParameter);
        }
        let ghost b = charset@.len();
        let base: u128 = charset.len() as u128;
        let len: u8 = self.max_password_length;

        // the search spaces
        let mut search_spaces: Vec<u64> = Vec::new();
        let mut n: u128 = 0;
        let mut pw: u128 = 1;
        let mut k: u8 = 0;
        while k <= len
            invariant
                0 <= k <= len + 1,
                len == self.max_password_length,
                len <= MAX_PASSWORD_LENGTH_ALLOWED,
                charset_valid(self.charset@),
                charset@ == sorted_charset(self.charset@),
                b == charset@.len(),
                self.t >= 2,
                self.tn >= 1,
                base == b,
                2 <= b <= 126,
                n == space_before(b, k as nat),
                pw == power(b, k as nat),
                n <= u64::MAX,
                pw <= 126 * 0x1_0000_0000_0000_0000,
                search_spaces@.len() == k,
                forall|j: int| 0 <= j < k ==> #[trigger] search_spaces@[j] == space_before(b, j as nat),
            decreases len + 1 - k,
        {
            search_spaces.push(n as u64);
            let next = n + pw;
            if next > u64::MAX as u128 {
                proof {
                    lemma_space_monotone(b, k as nat + 1, len as nat + 1);
                }
                let bits = space_bits(base, next, pw, k, len);
                assert(base as nat == sorted_charset(self.charset@).len());
                assert(bits == bits_for(space_before(sorted_charset(self.charset@).len(), len as nat + 1)));
                return Err(CugparckError::Space(bits));
            }
            proof {
                assert(pw * base <= 126 * 0x1_0000_0000_0000_0000) by (nonlinear_arith)
                    requires pw <= next, next <= u64::MAX, base <= 126;
            }
            n = next;
            pw = pw * base;
            assert(power(b, (k + 1) as nat) == b * power(b, k as nat));
            k += 1;
        }
        let n = n as u64;
        proof {
            lemma_space_monotone(b, 1, len as nat + 1);
            assert(space_before(b, 1) == 1) by {
                assert(space_before(b, 0) == 0);
                assert(power(b, 0) == 1);
            }
        }

        // the number of startpoints
        let m0: u64 = match self.m0 {
            Some(m) => if m < 1 {
                1
            } else if m > n {
                n
            } else {
                m
            },
            None => startpoints_from_alpha(self.alpha, n, self.t),
        };
        Ok(RainbowTableCtx {
            m0,
            hash_function: self.hash_function,
            charset,
            t: self.t,
            max_password_length: len,
            n,
            search_spaces,
            tn: self.tn,
        })
    }

    /// Sets the maximality factor, in millionths (1_000_000 for a maximal table).
    pub fn alpha(self, alpha: u32) -> (r: Self)
        ensures
            r == (Self { alpha, ..self }),
    {
        Self { alpha, ..self }
    }
}

} // verus!
