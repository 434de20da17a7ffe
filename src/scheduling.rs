//! Batch sizing for the kernel, and the columns where chains are filtered.
use std::ops::Range;
use vstd::prelude::*;

use crate::ctx::RainbowTableCtx;

verus! {

/// The number of CUDA cores of the largest target device: the number of
/// threads that can run at once.
pub const CUDA_CORES: usize = 21_760;

/// The number of threads per block.
pub const THREAD_COUNT: usize = 512;

/// How many chains per thread a batch should hold to keep the device busy.
pub const FILL_FACTOR: usize = 1;

/// The number of chains per batch below which the device is under-occupied.
pub const DESIRED_CHAINS_PER_BATCH: usize = 11_141_120;

/// The number of batches for `n` chains: as many full batches as fit, at least one.
pub open spec fn batch_count(n: nat) -> nat {
    if n / (DESIRED_CHAINS_PER_BATCH as nat) == 0 {
        1
    } else {
        n / (DESIRED_CHAINS_PER_BATCH as nat)
    }
}

/// The size of batch `k` of `n` chains: the remainder of the division goes
/// one chain each to the first batches.
pub open spec fn batch_len(n: nat, k: nat) -> nat {
    let b = batch_count(n);
    n / b + if k < n % b {
        1nat
    } else {
        0nat
    }
}

/// The first chain of batch `k` of `n` chains.
pub open spec fn batch_start(n: nat, k: nat) -> nat {
    let b = batch_count(n);
    k * (n / b) + if k < n % b {
        k
    } else {
        n % b
    }
}

/// The number of blocks of `THREAD_COUNT` threads for a batch of `len` chains, at least one.
pub open spec fn block_count_for(len: nat) -> nat {
    if len == 0 {
        1
    } else {
        ((len + THREAD_COUNT - 1) / (THREAD_COUNT as int)) as nat
    }
}

/// The batches of `n` chains tile `[0, n)` in order: the first starts at 0,
/// each starts where the previous ended, and the last ends at `n`. None is
/// smaller than `n / batch_count(n)`, and when there are at least
/// `DESIRED_CHAINS_PER_BATCH` chains, none is smaller than that either.
pub proof fn lemma_batches_partition(n: nat)
    ensures
        batch_count(n) >= 1,
        batch_start(n, 0) == 0,
        forall|k: nat|
            k < batch_count(n) ==> #[trigger] batch_start(n, k + 1) == batch_start(n, k)
                + batch_len(n, k),
        batch_start(n, batch_count(n)) == n,
        forall|k: nat| k < batch_count(n) ==> #[trigger] batch_len(n, k) >= n / batch_count(n),
        n >= DESIRED_CHAINS_PER_BATCH ==> forall|k: nat|
            k < batch_count(n) ==> #[trigger] batch_len(n, k) >= DESIRED_CHAINS_PER_BATCH,
{
    let b = batch_count(n);
    let q = n / b;
    let r = n % b;
    vstd::arithmetic::div_mod::lemma_fundamental_div_mod(n as int, b as int);
    vstd::arithmetic::div_mod::lemma_mod_bound(n as int, b as int);
    assert forall|k: nat| k < b implies #[trigger] batch_start(n, k + 1) == batch_start(n, k)
        + batch_len(n, k) by {
        assert((k + 1) * q == k * q + q) by (nonlinear_arith);
    }
    assert(batch_start(n, b) == n) by {
        assert(b * q + r == n);
    }
    if n >= DESIRED_CHAINS_PER_BATCH {
        let d = DESIRED_CHAINS_PER_BATCH as nat;
        vstd::arithmetic::div_mod::lemma_fundamental_div_mod(n as int, d as int);
        assert(b == n / d);
        assert(b * d <= n) by {
            vstd::arithmetic::div_mod::lemma_mod_bound(n as int, d as int);
        }
        assert(q >= d) by {
            if q < d {
                assert(n < b * d) by (nonlinear_arith)
                    requires q < d, n == b * q + r, r < b, b >= 1;
            }
        }
    }
}

/// Informations about a batch.
#[derive(Debug)]
pub struct BatchInfo {
    pub range: Range<usize>,
    pub block_count: u32,
    pub thread_count: u32,
}

/// An iterator that batches the chains to process.
#[derive(Clone, Debug)]
pub struct BatchIterator {
    chains_len: usize,
    range_start: usize,
    batch_size: usize,
    chains_remainder: usize,
    batch_number: usize,
    batches: usize,
    thread_count: u32,
}

impl BatchIterator {
    /// The iterator's fields agree with the number of chains and the next batch.
    pub closed spec fn wf(&self) -> bool {
        let n = self.chains_len as nat;
        &&& self.batches == batch_count(n)
        &&& self.batch_size == n / batch_count(n)
        &&& self.chains_remainder == n % batch_count(n)
        &&& self.batch_number <= self.batches
        &&& self.range_start == batch_start(n, self.batch_number as nat)
        &&& self.thread_count == THREAD_COUNT
    }

    /// The number of chains being batched.
    pub closed spec fn chains(&self) -> nat {
        self.chains_len as nat
    }

    /// The number of the next batch.
    pub closed spec fn position(&self) -> nat {
        self.batch_number as nat
    }

    /// Creates a new batch iterator where `chains_len` is the total number of chains to generate.
    pub fn new(chains_len: usize) -> (r: BatchIterator)
        ensures
            r.wf(),
            r.chains() == chains_len,
            r.position() == 0,
    {
        let mut batches = chains_len / DESIRED_CHAINS_PER_BATCH;
        let (batch_size, chains_remainder) = if batches == 0 {
            batches = 1;
            (chains_len, 0)
        } else {
            (chains_len / batches, chains_len % batches)
        };
        BatchIterator {
            chains_len,
            range_start: 0,
            batch_size,
            chains_remainder,
            batches,
            batch_number: 0,
            thread_count: THREAD_COUNT as u32,
        }
    }

    /// The number of batches left.
    pub fn len(&self) -> (r: usize)
        requires
            self.wf(),
        ensures
            r == batch_count(self.chains()) - self.position(),
    {
        self.batches - self.batch_number
    }

    /// The next batch, if any.
    pub fn next(&mut self) -> (r: Option<BatchInfo>)
        requires
            old(self).wf(),
        ensures
            final(self).wf(),
            final(self).chains() == old(self).chains(),
            old(self).position() == batch_count(old(self).chains()) ==> (r is None && final(self).position() == old(self).position()),
            old(self).position() < batch_count(old(self).chains()) ==> {
                let n = old(self).chains();
                let k = old(self).position();
                &&& final(self).position() == k + 1
                &&& r matches Some(info) && info.range.start == batch_start(n, k)
                    && info.range.end == batch_start(n, k) + batch_len(n, k)
                    && info.block_count == block_count_for(batch_len(n, k))
                    && info.thread_count == THREAD_COUNT
            },
    {
        if self.batch_number == self.batches {
            return None;
        }
        let ghost n = self.chains_len as nat;
        let ghost k = self.batch_number as nat;
        proof {
            lemma_batches_partition(n);
            lemma_batch_small(n, k);
            assert(batch_start(n, k) + batch_len(n, k) <= n) by {
                lemma_starts_monotone(n, k + 1, batch_count(n));
            }
        }
        let batch_size = if self.batch_number < self.chains_remainder {
            self.batch_size + 1
        } else {
            self.batch_size
        };
        let range_end = self.range_start + batch_size;
        let range = self.range_start..range_end;
        self.range_start = range_end;
        let blocks = if batch_size == 0 {
            1
        } else {
            (batch_size + THREAD_COUNT - 1) / THREAD_COUNT
        };
        let info = BatchInfo { range, block_count: blocks as u32, thread_count: self.thread_count };
        self.batch_number += 1;
        Some(info)
    }
}

/// Batch starts grow with the batch number.
pub proof fn lemma_starts_monotone(n: nat, j: nat, k: nat)
    requires
        j <= k <= batch_count(n),
    ensures
        batch_start(n, j) <= batch_start(n, k),
    decreases k - j,
{
    if j < k {
        lemma_batches_partition(n);
        lemma_starts_monotone(n, j, (k - 1) as nat);
        let j1 = (k - 1) as nat;
        assert(batch_start(n, j1 + 1) == batch_start(n, j1) + batch_len(n, j1));
        assert(j1 + 1 == k);
    }
}

/// A batch holds fewer than twice the desired number of chains.
proof fn lemma_batch_small(n: nat, k: nat)
    requires
        n <= usize::MAX,
    ensures
        batch_len(n, k) <= 2 * DESIRED_CHAINS_PER_BATCH,
{
    let d = DESIRED_CHAINS_PER_BATCH as nat;
    let b = batch_count(n);
    vstd::arithmetic::div_mod::lemma_fundamental_div_mod(n as int, d as int);
    vstd::arithmetic::div_mod::lemma_mod_bound(n as int, d as int);
    vstd::arithmetic::div_mod::lemma_fundamental_div_mod(n as int, b as int);
    vstd::arithmetic::div_mod::lemma_mod_bound(n as int, b as int);
    if n / d == 0 {
        assert(b == 1);
        assert(n / b == n);
    } else {
        let q = n / b;
        assert(b * q <= n);
        assert(n < b * d + d);
        assert(b * q < 2 * b * d) by (nonlinear_arith)
            requires b * q < b * d + d, b >= 1, d > 0;
        assert(q < 2 * d) by (nonlinear_arith)
            requires b * q < 2 * b * d, b >= 1;
    }
}

/// An iterator over the column ranges between two filtrations.
#[derive(Clone, Debug)]
pub struct FiltrationIterator {
    i: usize,
    current_col: u64,
    last_col: u64,
    filter_columns: Vec<u64>,
}

impl FiltrationIterator {
    /// The iterator's position is a column of the chains.
    pub closed spec fn wf(&self) -> bool {
        &&& self.i <= self.filter_columns@.len()
        &&& self.current_col <= self.last_col
    }

    /// The column the chains have reached.
    pub closed spec fn column(&self) -> nat {
        self.current_col as nat
    }

    /// The column where the chains end.
    pub closed spec fn last_column(&self) -> nat {
        self.last_col as nat
    }

    /// A bound on the number of ranges left.
    pub closed spec fn remaining(&self) -> nat {
        (self.filter_columns@.len() - self.i) as nat + if self.current_col < self.last_col {
            1nat
        } else {
            0nat
        }
    }

    /// Creates the ranges that lead chains of `ctx` from column 0 to column
    /// `t - 1`, filtering at the given columns (in increasing order; one out
    /// of order or past the end is raised to the previous one or lowered to
    /// the end).
    pub fn new(ctx: &RainbowTableCtx, filter_columns: Vec<u64>) -> (r: Self)
        requires
            ctx.t >= 1,
        ensures
            r.wf(),
            r.column() == 0,
            r.last_column() == ctx.t - 1,
            r.remaining() == filter_columns@.len() + if ctx.t >= 2 {
                1nat
            } else {
                0nat
            },
    {
        FiltrationIterator { i: 0, current_col: 0, last_col: ctx.t - 1, filter_columns }
    }

    /// The next range of columns: it starts where the chains are and ends
    /// at the next filtration column, or at the last column.
    pub fn next(&mut self) -> (r: Option<Range<u64>>)
        requires
            old(self).wf(),
        ensures
            final(self).wf(),
            final(self).last_column() == old(self).last_column(),
            (r is None) <==> old(self).column() == old(self).last_column(),
            (r is None) ==> final(self).column() == old(self).column(),
            r matches Some(range) ==> range.start == old(self).column() && range.start
                < range.end && range.end == final(self).column() && final(self).remaining()
                < old(self).remaining(),
    {
        while self.i < self.filter_columns.len()
            invariant
                self.wf(),
                self.last_col == old(self).last_col,
                self.current_col == old(self).current_col,
                self.remaining() <= old(self).remaining(),
            decreases self.filter_columns@.len() - self.i,
        {
            let col = self.filter_columns[self.i];
            self.i += 1;
            let col = if col > self.last_col {
                self.last_col
            } else {
                col
            };
            if col > self.current_col {
                let start = self.current_col;
                self.current_col = col;
                return Some(start..col);
            }
        }
        if self.current_col < self.last_col {
            let start = self.current_col;
            self.current_col = self.last_col;
            return Some(start..self.last_col);
        }
        None
    }
}

} // verus!
