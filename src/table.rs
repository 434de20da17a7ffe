//! Rainbow tables: the trait that search works over, and the simple table
//! that generation builds.
use std::ops::Range;
use vstd::prelude::*;

use crate::chain_map::{slots_for, RainbowChain, RainbowChainMap, VACANT_ENDPOINT};
use crate::codec::{counter_of, over_charset, plaintext_to_counter};
use crate::ctx::RainbowTableCtx;
use crate::error::CugparckError;
use crate::kernel::{chains_kernel, kernel_chain, lemma_kernel_chain_bound, lemma_kernel_chain_concat};
use crate::scheduling::{
    batch_count, batch_start, lemma_batches_partition, lemma_starts_monotone,
    BatchIterator, FiltrationIterator,
};
use crate::CompressedPassword;

verus! {

/// What search needs of a table: its chains as a map from endpoint to
/// startpoint, and its context.
pub trait RainbowTable {
    /// The table is consistent.
    spec fn table_wf(&self) -> bool;

    /// The chains, from endpoint to startpoint.
    spec fn chain_map(&self) -> Map<u64, u64>;

    /// The context.
    spec fn context(&self) -> RainbowTableCtx;

    /// A consistent table has a well-formed context, and its endpoints are
    /// counters of its space.
    proof fn lemma_table_wf(&self)
        requires
            self.table_wf(),
        ensures
            self.context().wf(),
            forall|e: u64| #[trigger] self.chain_map().contains_key(e) ==> e < self.context().n,
    ;

    /// Searches the endpoints for a counter; returns the startpoint of the
    /// chain that ends there.
    fn search_endpoints(&self, password: CompressedPassword) -> (r: Option<CompressedPassword>)
        requires
            self.table_wf(),
        ensures
            r == (if self.chain_map().contains_key(password) {
                Some(self.chain_map()[password])
            } else {
                None
            }),
    ;

    /// The context.
    fn ctx_ref(&self) -> (r: &RainbowTableCtx)
        requires
            self.table_wf(),
        ensures
            *r == self.context(),
    ;
}

/// Every chain of the map starts at a startpoint below `m0` and ends where
/// the kernel takes it at column `col`.
pub open spec fn chains_reach(map: Map<u64, u64>, ctx: RainbowTableCtx, col: nat) -> bool {
    forall|e: u64|
        #[trigger] map.contains_key(e) ==> map[e] < ctx.m0 && e == kernel_chain(
            ctx,
            map[e] as nat,
            0,
            col,
        )
}

/// Every chain of the list starts below `m0` and ends where the kernel
/// takes it at column `col`.
pub open spec fn list_reaches(chains: Seq<RainbowChain>, ctx: RainbowTableCtx, col: nat) -> bool {
    forall|i: int|
        0 <= i < chains.len() ==> #[trigger] chains[i].startpoint < ctx.m0 && chains[i].endpoint
            == kernel_chain(ctx, chains[i].startpoint as nat, 0, col)
}

impl RainbowChain {
    /// Creates a chain from its startpoint and endpoint passwords.
    pub fn new(startpoint: Vec<u8>, endpoint: Vec<u8>, ctx: &RainbowTableCtx) -> (r: RainbowChain)
        requires
            ctx.space_wf(),
            startpoint@.len() <= ctx.max_len(),
            endpoint@.len() <= ctx.max_len(),
            over_charset(ctx.charset@, startpoint@),
            over_charset(ctx.charset@, endpoint@),
        ensures
            r.startpoint == counter_of(ctx.charset@, startpoint@),
            r.endpoint == counter_of(ctx.charset@, endpoint@),
    {
        RainbowChain {
            startpoint: plaintext_to_counter(startpoint, ctx),
            endpoint: plaintext_to_counter(endpoint, ctx),
        }
    }
}

/// Inserting a chain that the kernel reaches keeps every chain of the map
/// reaching, keeps every key, and leaves the chain's endpoint in the map.
proof fn lemma_after_insert(
    before: Map<u64, u64>,
    after: Map<u64, u64>,
    chain: RainbowChain,
    ctx: RainbowTableCtx,
    col: nat,
)
    requires
        after == before || after == before.insert(chain.endpoint, chain.startpoint),
        after == before ==> before.contains_key(chain.endpoint),
        chains_reach(before, ctx, col),
        chain.startpoint < ctx.m0,
        chain.endpoint == kernel_chain(ctx, chain.startpoint as nat, 0, col),
    ensures
        chains_reach(after, ctx, col),
        after.contains_key(chain.endpoint),
        forall|k: u64| before.contains_key(k) ==> #[trigger] after.contains_key(k),
{
}

/// For every startpoint below `m0`, some chain of the list ends where the
/// kernel takes that startpoint at column `col`.
pub open spec fn list_covers(chains: Seq<RainbowChain>, ctx: RainbowTableCtx, col: nat) -> bool {
    forall|s: nat| s < ctx.m0 ==> #[trigger] covered(chains, ctx, s, col)
}

/// Some chain of the list ends where the kernel takes startpoint `s` at column `col`.
pub open spec fn covered(chains: Seq<RainbowChain>, ctx: RainbowTableCtx, s: nat, col: nat) -> bool {
    exists|i: int| 0 <= i < chains.len() && chains[i].endpoint == kernel_chain(ctx, s, 0, col)
}

/// For every startpoint below `m0`, the map holds the endpoint where the
/// kernel takes it at column `col`.
pub open spec fn map_covers(map: Map<u64, u64>, ctx: RainbowTableCtx, col: nat) -> bool {
    forall|s: nat| s < ctx.m0 ==> map.contains_key(#[trigger] kernel_chain(ctx, s, 0, col) as u64)
}

/// The endpoint the kernel takes chain `idx` of the list to, from column
/// `start` to column `end`.
pub open spec fn key_of(ctx: RainbowTableCtx, chains: Seq<RainbowChain>, idx: int, start: nat, end: nat) -> u64 {
    kernel_chain(ctx, chains[idx].endpoint as nat, start, end) as u64
}

/// After a segment, the map holds the endpoint of every startpoint.
proof fn lemma_segment_covers(
    old_current: Seq<RainbowChain>,
    map: Map<u64, u64>,
    ctx: RainbowTableCtx,
    start: nat,
    end: nat,
)
    requires
        start <= end,
        list_covers(old_current, ctx, start),
        forall|idx: int| 0 <= idx < old_current.len() ==> #[trigger] map.contains_key(key_of(ctx, old_current, idx, start, end)),
    ensures
        map_covers(map, ctx, end),
{
    assert forall|t: nat| t < ctx.m0 implies map.contains_key(#[trigger] kernel_chain(ctx, t, 0, end) as u64) by {
        assert(covered(old_current, ctx, t, start));
        let w = choose|i: int| 0 <= i < old_current.len() && old_current[i].endpoint == kernel_chain(ctx, t, 0, start);
        lemma_kernel_chain_concat(ctx, t, 0, start, end);
        assert(map.contains_key(key_of(ctx, old_current, w, start, end)));
    }
}

/// The entries of a map that holds the endpoint of every startpoint cover
/// every startpoint, and reach as the map does.
proof fn lemma_entries_cover(current: Seq<RainbowChain>, map: Map<u64, u64>, ctx: RainbowTableCtx, end: nat)
    requires
        ctx.wf(),
        map_covers(map, ctx, end),
        chains_reach(map, ctx, end),
        forall|i: int| 0 <= i < current.len() ==> #[trigger] map.contains_key(current[i].endpoint) && map[current[i].endpoint] == current[i].startpoint,
        forall|e: u64| #[trigger] map.contains_key(e) ==> exists|i: int| 0 <= i < current.len() && current[i].endpoint == e,
    ensures
        list_covers(current, ctx, end),
        list_reaches(current, ctx, end),
{
    assert forall|t: nat| t < ctx.m0 implies #[trigger] covered(current, ctx, t, end) by {
        lemma_kernel_chain_bound(ctx, t, 0, end);
        let key = kernel_chain(ctx, t, 0, end) as u64;
        assert(map.contains_key(key));
        let i = choose|i: int| 0 <= i < current.len() && current[i].endpoint == key;
        assert(current[i].endpoint == kernel_chain(ctx, t, 0, end));
    }
    assert forall|i: int| 0 <= i < current.len() implies #[trigger] current[i].startpoint < ctx.m0
        && current[i].endpoint == kernel_chain(ctx, current[i].startpoint as nat, 0, end) by {
        assert(map.contains_key(current[i].endpoint));
    }
}

/// Runs every chain of `current` from column `start` to column `end` in
/// batches through the kernel, and inserts the results into the empty map
/// `next`, which keeps one chain per endpoint.
fn extend_chains(current: &Vec<RainbowChain>, next: &mut RainbowChainMap, start: u64, end: u64, ctx: &RainbowTableCtx)
    requires
        ctx.wf(),
        old(next).wf(),
        old(next)@ == Map::<u64, u64>::empty(),
        old(next).len_spec() == 0,
        old(next).cap_spec() >= current@.len(),
        start < end,
        list_reaches(current@, *ctx, start as nat),
    ensures
        final(next).wf(),
        final(next).cap_spec() == old(next).cap_spec(),
        final(next).len_spec() <= current@.len(),
        chains_reach(final(next)@, *ctx, end as nat),
        forall|idx: int| 0 <= idx < current@.len() ==> #[trigger] final(next)@.contains_key(key_of(*ctx, current@, idx, start as nat, end as nat)),
{
    let mut batches = BatchIterator::new(current.len());
    let ghost n = current@.len();
    proof {
        lemma_batches_partition(n);
    }
    let mut done: usize = 0;
    loop
        invariant
            ctx.wf(),
            next.wf(),
            batches.wf(),
            batches.chains() == n,
            n == current@.len(),
            start < end,
            done == batch_start(n, batches.position()),
            done <= n,
            batches.position() <= batch_count(n),
            next.len_spec() <= done,
            next.cap_spec() == old(next).cap_spec(),
            next.cap_spec() >= n,
            list_reaches(current@, *ctx, start as nat),
            chains_reach(next@, *ctx, end as nat),
            forall|idx: int| 0 <= idx < done ==> #[trigger] next@.contains_key(key_of(*ctx, current@, idx, start as nat, end as nat)),
        ensures
            next.wf(),
            next.len_spec() <= n,
            next.cap_spec() == old(next).cap_spec(),
            chains_reach(next@, *ctx, end as nat),
            forall|idx: int| 0 <= idx < n ==> #[trigger] next@.contains_key(key_of(*ctx, current@, idx, start as nat, end as nat)),
        decreases batch_count(n) - batches.position(),
    {
        let ghost k = batches.position();
        let batch = match batches.next() {
            Some(batch) => batch,
            None => {
                proof {
                    lemma_batches_partition(n);
                }
                break;
            },
        };
        proof {
            lemma_batches_partition(n);
            lemma_starts_monotone(n, k + 1, batch_count(n));
        }
        let range = batch.range;
        let mut midpoints: Vec<u64> = Vec::new();
        let mut j: usize = range.start;
        while j < range.end
            invariant
                range.start <= j <= range.end,
                range.end <= current@.len(),
                midpoints@.len() == j - range.start,
                forall|x: int|
                    0 <= x < midpoints@.len() ==> #[trigger] midpoints@[x] == current@[range.start + x].endpoint,
            decreases range.end - j,
        {
            midpoints.push(current[j].endpoint);
            j += 1;
        }
        chains_kernel(&mut midpoints, start, end, ctx);
        insert_batch(current, range.start, &midpoints, next, start, end, ctx);
        done = range.end;
    }
}

/// Inserts the chains `lo..lo + midpoints.len()` of `current`, whose
/// endpoints the kernel has taken to `midpoints`.
fn insert_batch(
    current: &Vec<RainbowChain>,
    lo: usize,
    midpoints: &Vec<u64>,
    next: &mut RainbowChainMap,
    start: u64,
    end: u64,
    ctx: &RainbowTableCtx,
)
    requires
        ctx.wf(),
        old(next).wf(),
        lo + midpoints@.len() <= current@.len(),
        old(next).len_spec() <= lo,
        old(next).cap_spec() >= current@.len(),
        start < end,
        list_reaches(current@, *ctx, start as nat),
        chains_reach(old(next)@, *ctx, end as nat),
        forall|idx: int| 0 <= idx < lo ==> #[trigger] old(next)@.contains_key(key_of(*ctx, current@, idx, start as nat, end as nat)),
        forall|y: int| 0 <= y < midpoints@.len() ==> #[trigger] midpoints@[y] == key_of(*ctx, current@, lo + y, start as nat, end as nat),
    ensures
        final(next).wf(),
        final(next).cap_spec() == old(next).cap_spec(),
        final(next).len_spec() <= lo + midpoints@.len(),
        chains_reach(final(next)@, *ctx, end as nat),
        forall|idx: int| 0 <= idx < lo + midpoints@.len() ==> #[trigger] final(next)@.contains_key(key_of(*ctx, current@, idx, start as nat, end as nat)),
{
    let total = current.len();
    let mut x: usize = 0;
    while x < midpoints.len()
        invariant
            ctx.wf(),
            next.wf(),
            total == current@.len(),
            0 <= x <= midpoints@.len(),
            lo + midpoints@.len() <= current@.len(),
            next.len_spec() <= lo + x,
            next.cap_spec() == old(next).cap_spec(),
            next.cap_spec() >= current@.len(),
            start < end,
            list_reaches(current@, *ctx, start as nat),
            chains_reach(next@, *ctx, end as nat),
            forall|idx: int| 0 <= idx < lo + x ==> #[trigger] next@.contains_key(key_of(*ctx, current@, idx, start as nat, end as nat)),
            forall|y: int| 0 <= y < midpoints@.len() ==> #[trigger] midpoints@[y] == key_of(*ctx, current@, lo + y, start as nat, end as nat),
        decreases midpoints@.len() - x,
    {
        let c = current[lo + x];
        let chain = RainbowChain { startpoint: c.startpoint, endpoint: midpoints[x] };
        let ghost before = next@;
        proof {
            assert(c.startpoint < ctx.m0 && c.endpoint == kernel_chain(*ctx, c.startpoint as nat, 0, start as nat));
            lemma_kernel_chain_concat(*ctx, c.startpoint as nat, 0, start as nat, end as nat);
            lemma_kernel_chain_bound(*ctx, c.startpoint as nat, 0, end as nat);
            assert(midpoints@[x as int] == key_of(*ctx, current@, lo + x, start as nat, end as nat));
            assert(chain.endpoint == kernel_chain(*ctx, c.startpoint as nat, 0, end as nat));
        }
        next.insert(chain);
        proof {
            lemma_after_insert(before, next@, chain, *ctx, end as nat);
            assert forall|idx: int| 0 <= idx < lo + x + 1 implies #[trigger] next@.contains_key(key_of(*ctx, current@, idx, start as nat, end as nat)) by {
                if idx < lo + x {
                    assert(before.contains_key(key_of(*ctx, current@, idx, start as nat, end as nat)));
                }
            }
        }
        x += 1;
    }
}

/// A simple rainbow table: an endpoint map and its context.
pub struct SimpleTable {
    chains: RainbowChainMap,
    ctx: RainbowTableCtx,
}

impl SimpleTable {
    /// The number of chains.
    pub closed spec fn chain_count(&self) -> nat {
        self.chains.len_spec()
    }

    /// Creates a simple rainbow table from a list of chains; of chains that
    /// share an endpoint, the first is kept. The map that receives the chains
    /// is allocated first, and that alone may fail.
    pub fn from_vec(chains: Vec<RainbowChain>, ctx: RainbowTableCtx) -> (r: Result<
        Self,
        CugparckError,
    >)
        requires
            ctx.wf(),
            forall|i: int| 0 <= i < chains@.len() ==> #[trigger] chains@[i].endpoint < ctx.n,
        ensures
            r matches Ok(t) ==> {
                &&& t.table_wf()
                &&& t.context() == ctx
                &&& forall|i: int|
                    0 <= i < chains@.len() ==> #[trigger] t.chain_map().contains_key(
                        chains@[i].endpoint,
                    )
                &&& forall|e: u64| #[trigger]
                    t.chain_map().contains_key(e) ==> exists|i: int|
                        0 <= i < chains@.len() && chains@[i].endpoint == e && chains@[i].startpoint
                            == t.chain_map()[e]
                &&& forall|i: int|
                    0 <= i < chains@.len() && (forall|j: int|
                        0 <= j < i ==> chains@[j].endpoint != chains@[i].endpoint)
                        ==> t.chain_map()[#[trigger] chains@[i].endpoint] == chains@[i].startpoint
            },
            r matches Err(e) ==> e == CugparckError::OutOfMemory,
            slots_for(if chains@.len() > 1 { chains@.len() as u64 } else { 1u64 }) > usize::MAX
                ==> r == Err::<Self, CugparckError>(CugparckError::OutOfMemory),
    {
        let len: u64 = if chains.len() as u64 > 1 {
            chains.len() as u64
        } else {
            1
        };
        let map = match RainbowChainMap::new(len) {
            Ok(map) => map,
            Err(e) => return Err(e),
        };
        proof {
            assert(slots_for(len) >= len) by (nonlinear_arith)
                requires slots_for(len) == (len as nat * 10) / 7;
        }
        Ok(Self::from_chains(map, chains, ctx))
    }

    /// Creates a simple rainbow table from a list of chains into `map`, an
    /// empty map with a slot for each chain; of chains that share an
    /// endpoint, the first is kept.
    pub fn from_chains(map: RainbowChainMap, chains: Vec<RainbowChain>, ctx: RainbowTableCtx) -> (t: Self)
        requires
            ctx.wf(),
            map.wf(),
            map@ == Map::<u64, u64>::empty(),
            map.len_spec() == 0,
            map.cap_spec() >= chains@.len(),
            forall|i: int| 0 <= i < chains@.len() ==> #[trigger] chains@[i].endpoint < ctx.n,
        ensures
            t.table_wf(),
            t.context() == ctx,
            forall|i: int|
                0 <= i < chains@.len() ==> #[trigger] t.chain_map().contains_key(
                    chains@[i].endpoint,
                ),
            forall|e: u64| #[trigger]
                t.chain_map().contains_key(e) ==> exists|i: int|
                    0 <= i < chains@.len() && chains@[i].endpoint == e && chains@[i].startpoint
                    == t.chain_map()[e],
            forall|i: int|
                0 <= i < chains@.len() && (forall|j: int|
                    0 <= j < i ==> chains@[j].endpoint != chains@[i].endpoint)
                    ==> t.chain_map()[#[trigger] chains@[i].endpoint] == chains@[i].startpoint,
    {
        let mut map = map;
        let len: u64 = chains.len() as u64;
        let mut i: usize = 0;
        while i < chains.len()
            invariant
                0 <= i <= chains@.len(),
                chains@.len() <= len,
                map.wf(),
                map.cap_spec() >= len,
                map.len_spec() <= i,
                forall|j: int| 0 <= j < chains@.len() ==> #[trigger] chains@[j].endpoint < ctx.n,
                ctx.wf(),
                forall|j: int| 0 <= j < i ==> #[trigger] map@.contains_key(chains@[j].endpoint),
                forall|e: u64| #[trigger]
                    map@.contains_key(e) ==> exists|j: int|
                        0 <= j < i && chains@[j].endpoint == e && chains@[j].startpoint == map@[e],
                forall|j: int|
                    0 <= j < i && (forall|k: int|
                        0 <= k < j ==> chains@[k].endpoint != chains@[j].endpoint)
                        ==> map@[#[trigger] chains@[j].endpoint] == chains@[j].startpoint,
            decreases chains@.len() - i,
        {
            let c = chains[i];
            let ghost before = map@;
            map.insert(c);
            proof {
                assert(c.endpoint != VACANT_ENDPOINT);
                if !before.contains_key(c.endpoint) {
                    assert(map@ == before.insert(c.endpoint, c.startpoint));
                }
                assert forall|e: u64| #[trigger] map@.contains_key(e) implies exists|j: int|
                    0 <= j < i + 1 && chains@[j].endpoint == e && chains@[j].startpoint
                        == map@[e] by {
                    if before.contains_key(e) {
                        let j = choose|j: int|
                            0 <= j < i && chains@[j].endpoint == e && chains@[j].startpoint
                                == before[e];
                        assert(chains@[j].endpoint == e);
                    } else {
                        assert(chains@[i as int].endpoint == e);
                    }
                }
                assert forall|j: int|
                    0 <= j < i + 1 && (forall|k: int|
                        0 <= k < j ==> chains@[k].endpoint != chains@[j].endpoint) implies map@[
                    #[trigger] chains@[j].endpoint] == chains@[j].startpoint by {
                    if j < i {
                        assert(before.contains_key(chains@[j].endpoint));
                    } else if before.contains_key(c.endpoint) {
                        let k = choose|k: int|
                            0 <= k < i && chains@[k].endpoint == c.endpoint && chains@[k].startpoint
                                == before[c.endpoint];
                        assert(chains@[k].endpoint != chains@[j].endpoint);
                    }
                }
            }
            i += 1;
        }
        proof {
            assert forall|e: u64| #[trigger] map@.contains_key(e) implies e < ctx.n by {
                let j = choose|j: int| 0 <= j < i && chains@[j].endpoint == e && chains@[j].startpoint == map@[e];
            }
        }
        SimpleTable { chains: map, ctx }
    }

    /// Generates a simple rainbow table: every startpoint below `m0` is run
    /// through the kernel, segment by segment between the filtration
    /// columns, keeping one chain per endpoint after each segment. The map
    /// that receives the chains is allocated first, and that alone may fail.
    pub fn new(ctx: RainbowTableCtx, filter_columns: Vec<u64>) -> (r: Result<Self, CugparckError>)
        requires
            ctx.wf(),
        ensures
            r matches Ok(t) ==> {
                &&& t.table_wf()
                &&& t.context() == ctx
                &&& t.chain_count() <= ctx.m0
                &&& chains_reach(t.chain_map(), ctx, (ctx.t - 1) as nat)
                &&& map_covers(t.chain_map(), ctx, (ctx.t - 1) as nat)
            },
            r matches Err(e) ==> e == CugparckError::OutOfMemory,
            slots_for(ctx.m0) > usize::MAX ==> r == Err::<Self, CugparckError>(CugparckError::OutOfMemory),
    {
        let next = match RainbowChainMap::new(ctx.m0) {
            Ok(map) => map,
            Err(e) => return Err(e),
        };
        let mut steps: Vec<u64> = Vec::new();
        Ok(Self::generate(next, ctx, filter_columns, &mut steps))
    }

    /// Generates a simple rainbow table into `next`, an empty map with a
    /// slot count made for `m0` chains: every startpoint below `m0` is run
    /// through the kernel, segment by segment between the filtration
    /// columns, keeping one chain per endpoint after each segment. The number
    /// of chains left after each segment is appended to `unique_chains`.
    pub fn generate(
        next: RainbowChainMap,
        ctx: RainbowTableCtx,
        filter_columns: Vec<u64>,
        unique_chains: &mut Vec<u64>,
    ) -> (t: Self)
        requires
            ctx.wf(),
            next.wf(),
            next@ == Map::<u64, u64>::empty(),
            next.len_spec() == 0,
            next.cap_spec() == slots_for(ctx.m0),
        ensures
            t.table_wf(),
            t.context() == ctx,
            t.chain_count() <= ctx.m0,
            chains_reach(t.chain_map(), ctx, (ctx.t - 1) as nat),
            map_covers(t.chain_map(), ctx, (ctx.t - 1) as nat),
            final(unique_chains)@.len() > old(unique_chains)@.len(),
            final(unique_chains)@.last() == t.chain_count(),
            forall|i: int| old(unique_chains)@.len() <= i < final(unique_chains)@.len() ==> #[trigger] final(unique_chains)@[i] <= ctx.m0,
            forall|i: int| old(unique_chains)@.len() < i < final(unique_chains)@.len() ==> #[trigger] final(unique_chains)@[i] <= final(unique_chains)@[i - 1],
    {
        let mut next = next;
        let m0 = ctx.m0;
        let cap = next.capacity();
        proof {
            assert(slots_for(m0) >= m0) by (nonlinear_arith)
                requires slots_for(m0) == (m0 as nat * 10) / 7;
        }
        let ghost old_len = unique_chains@.len();
        // the startpoints, each its own endpoint at column 0
        let mut current: Vec<RainbowChain> = Vec::new();
        let mut s: u64 = 0;
        while s < m0
            invariant
                0 <= s <= m0,
                m0 == ctx.m0,
                current@.len() == s,
                forall|i: int| 0 <= i < current@.len() ==> #[trigger] current@[i] == (RainbowChain { startpoint: i as u64, endpoint: i as u64 }),
            decreases m0 - s,
        {
            current.push(RainbowChain { startpoint: s, endpoint: s });
            s += 1;
        }
        proof {
            assert forall|i: int| 0 <= i < current@.len() implies #[trigger] current@[i].startpoint < ctx.m0
                && current@[i].endpoint == kernel_chain(ctx, current@[i].startpoint as nat, 0, 0) by {
                assert(current@[i] == (RainbowChain { startpoint: i as u64, endpoint: i as u64 }));
            }
            assert forall|t: nat| t < ctx.m0 implies #[trigger] covered(current@, ctx, t, 0) by {
                assert(current@[t as int] == (RainbowChain { startpoint: t as u64, endpoint: t as u64 }));
                assert(kernel_chain(ctx, t, 0, 0) == t);
            }
        }
        let mut filtration = FiltrationIterator::new(&ctx, filter_columns);
        let mut column: u64 = 0;
        assert(list_covers(current@, ctx, column as nat));
        assert(list_reaches(current@, ctx, column as nat));
        loop
            invariant
                ctx.wf(),
                next.wf(),
                filtration.wf(),
                filtration.column() == column,
                filtration.last_column() == ctx.t - 1,
                current@.len() <= ctx.m0,
                list_reaches(current@, ctx, column as nat),
                chains_reach(next@, ctx, column as nat),
                next.len_spec() <= ctx.m0,
                next.cap_spec() == slots_for(ctx.m0),
                slots_for(ctx.m0) >= ctx.m0,
                list_covers(current@, ctx, column as nat),
                column > 0 ==> map_covers(next@, ctx, column as nat),
                unique_chains@.len() >= old_len,
                column > 0 ==> unique_chains@.len() > old_len && unique_chains@.last() == next.len_spec(),
                forall|i: int| old_len <= i < unique_chains@.len() ==> #[trigger] unique_chains@[i] <= ctx.m0,
                forall|i: int| old_len < i < unique_chains@.len() ==> #[trigger] unique_chains@[i] <= unique_chains@[i - 1],
                column > 0 ==> current@.len() == next.len_spec(),
                column == 0 ==> unique_chains@.len() == old_len,
            ensures
                column == ctx.t - 1,
                next.wf(),
                chains_reach(next@, ctx, column as nat),
                next.len_spec() <= ctx.m0,
                map_covers(next@, ctx, column as nat),
                unique_chains@.len() > old_len && unique_chains@.last() == next.len_spec(),
                forall|i: int| old_len <= i < unique_chains@.len() ==> #[trigger] unique_chains@[i] <= ctx.m0,
                forall|i: int| old_len < i < unique_chains@.len() ==> #[trigger] unique_chains@[i] <= unique_chains@[i - 1],
            decreases filtration.remaining(),
        {
            let columns: Range<u64> = match filtration.next() {
                Some(columns) => columns,
                None => break,
            };
            let ghost prev_count = current@.len();
            next.clear();
            extend_chains(&current, &mut next, columns.start, columns.end, &ctx);
            let ghost before_steps = unique_chains@;
            unique_chains.push(next.len() as u64);
            proof {
                assert forall|i: int| old_len < i < unique_chains@.len() implies #[trigger] unique_chains@[i] <= unique_chains@[i - 1] by {
                    if i < unique_chains@.len() - 1 {
                        assert(unique_chains@[i] == before_steps[i] && unique_chains@[i - 1] == before_steps[i - 1]);
                    } else {
                        assert(column > 0);
                        assert(before_steps.last() == prev_count);
                        assert(unique_chains@[i - 1] == before_steps.last());
                    }
                }
            }
            let ghost old_current = current@;
            current = next.entries();
            proof {
                lemma_segment_covers(old_current, next@, ctx, column as nat, columns.end as nat);
                lemma_entries_cover(current@, next@, ctx, columns.end as nat);
            }
            column = columns.end;
        }
        proof {
            assert forall|e: u64| #[trigger] next@.contains_key(e) implies e < ctx.n by {
                lemma_kernel_chain_bound(ctx, next@[e] as nat, 0, (ctx.t - 1) as nat);
            }
        }
        SimpleTable { chains: next, ctx }
    }

    /// The number of chains.
    pub fn len(&self) -> (r: usize)
        requires
            self.table_wf(),
        ensures
            r == self.chain_count(),
    {
        self.chains.len()
    }

    /// The chains of the table, each once, in no particular order.
    pub fn chains(&self) -> (r: Vec<RainbowChain>)
        requires
            self.table_wf(),
        ensures
            r@.len() == self.chain_count(),
            forall|i: int|
                0 <= i < r@.len() ==> #[trigger] self.chain_map().contains_key(r@[i].endpoint)
                    && self.chain_map()[r@[i].endpoint] == r@[i].startpoint,
            forall|e: u64| #[trigger]
                self.chain_map().contains_key(e) ==> exists|i: int|
                    0 <= i < r@.len() && r@[i].endpoint == e,
            forall|i: int, j: int| 0 <= i < j < r@.len() ==> r@[i].endpoint != r@[j].endpoint,
    {
        self.chains.entries()
    }

    /// A copy of the context.
    pub fn ctx(&self) -> (r: RainbowTableCtx)
        requires
            self.table_wf(),
        ensures
            r.same_as(&self.context()),
    {
        self.ctx.duplicate()
    }
}

impl RainbowTable for SimpleTable {
    closed spec fn table_wf(&self) -> bool {
        &&& self.chains.wf()
        &&& self.ctx.wf()
        &&& forall|e: u64| #[trigger] self.chains@.contains_key(e) ==> e < self.ctx.n
    }

    closed spec fn chain_map(&self) -> Map<u64, u64> {
        self.chains@
    }

    closed spec fn context(&self) -> RainbowTableCtx {
        self.ctx
    }

    proof fn lemma_table_wf(&self) {
    }

    fn search_endpoints(&self, password: CompressedPassword) -> (r: Option<CompressedPassword>) {
        self.chains.get(password)
    }

    fn ctx_ref(&self) -> (r: &RainbowTableCtx) {
        &self.ctx
    }
}

} // verus!
