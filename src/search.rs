//! Searching tables for a password that hashes to a digest.
use vstd::prelude::*;

use crate::codec::{counter_to_plaintext, lemma_plaintext_len, plaintext_of, reduce, reduce_spec};
use crate::ctx::RainbowTableCtx;
use crate::hash::{digest_of, digest_size_spec};
use crate::table::RainbowTable;

verus! {

/// The counter that digest `d` reduces to at column `k`.
pub open spec fn reduce_at(ctx: RainbowTableCtx, d: Seq<u8>, k: nat) -> nat {
    reduce_spec(d, k as u64, ctx.tn, ctx.n)
}

/// The digest after continuing a chain from digest `d` at column `k` up to column `end`:
/// reduce, decode, hash, column after column.
pub open spec fn walk_digest(ctx: RainbowTableCtx, d: Seq<u8>, k: nat, end: nat) -> Seq<u8>
    decreases end - k,
{
    if k >= end {
        d
    } else {
        walk_digest(
            ctx,
            digest_of(ctx.hash_function, plaintext_of(ctx.charset@, ctx.max_len(), reduce_at(ctx, d, k))),
            k + 1,
            end,
        )
    }
}

/// The endpoint a chain would have if digest `d` were the digest at column `c`.
pub open spec fn column_tail(ctx: RainbowTableCtx, d: Seq<u8>, c: nat) -> nat {
    reduce_at(ctx, walk_digest(ctx, d, c, (ctx.t - 2) as nat), (ctx.t - 2) as nat)
}

/// The password at column `c` of the chain whose password at column `k` is `p`.
pub open spec fn replay(ctx: RainbowTableCtx, p: Seq<u8>, k: nat, c: nat) -> Seq<u8>
    decreases c - k,
{
    if k >= c {
        p
    } else {
        replay(
            ctx,
            plaintext_of(ctx.charset@, ctx.max_len(), reduce_at(ctx, digest_of(ctx.hash_function, p), k)),
            k + 1,
            c,
        )
    }
}

/// What column `c` yields for digest `d` in a table with chains `map`: the
/// password at column `c` of the chain whose endpoint matches, if that
/// password hashes to `d`.
pub open spec fn column_result(map: Map<u64, u64>, ctx: RainbowTableCtx, d: Seq<u8>, c: nat) -> Option<
    Seq<u8>,
> {
    let tail = column_tail(ctx, d, c) as u64;
    if map.contains_key(tail) {
        let p = replay(ctx, plaintext_of(ctx.charset@, ctx.max_len(), map[tail] as nat), 0, c);
        if digest_of(ctx.hash_function, p) == d {
            Some(p)
        } else {
            None
        }
    } else {
        None
    }
}

/// The first result among columns `c, c - 1, ..., 0`.
pub open spec fn search_from(map: Map<u64, u64>, ctx: RainbowTableCtx, d: Seq<u8>, c: nat) -> Option<
    Seq<u8>,
>
    decreases c,
{
    match column_result(map, ctx, d, c) {
        Some(p) => Some(p),
        None => if c == 0 {
            None
        } else {
            search_from(map, ctx, d, (c - 1) as nat)
        },
    }
}

/// A search of a table: the columns from the last to the first, the first
/// that yields; nothing for a digest of another size than the hash's.
pub open spec fn search_spec(map: Map<u64, u64>, ctx: RainbowTableCtx, d: Seq<u8>) -> Option<Seq<u8>> {
    if d.len() != digest_size_spec(ctx.hash_function) {
        None
    } else {
        search_from(map, ctx, d, (ctx.t - 2) as nat)
    }
}

/// The first result at column `c` among tables `j..` of a cluster.
pub open spec fn cluster_column(maps: Seq<Map<u64, u64>>, ctxs: Seq<RainbowTableCtx>, d: Seq<u8>, c: nat, j: nat) -> Option<Seq<u8>>
    decreases maps.len() - j,
{
    if j >= maps.len() {
        None
    } else {
        match column_result(maps[j as int], ctxs[j as int], d, c) {
            Some(p) => Some(p),
            None => cluster_column(maps, ctxs, d, c, j + 1),
        }
    }
}

/// The first result among columns `c, c - 1, ..., 0` of a cluster, tables in order at each column.
pub open spec fn cluster_from(maps: Seq<Map<u64, u64>>, ctxs: Seq<RainbowTableCtx>, d: Seq<u8>, c: nat) -> Option<Seq<u8>>
    decreases c,
{
    match cluster_column(maps, ctxs, d, c, 0) {
        Some(p) => Some(p),
        None => if c == 0 {
            None
        } else {
            cluster_from(maps, ctxs, d, (c - 1) as nat)
        },
    }
}

/// A search never returns a password that does not hash to the digest.
pub proof fn lemma_search_sound(map: Map<u64, u64>, ctx: RainbowTableCtx, d: Seq<u8>, c: nat)
    ensures
        search_from(map, ctx, d, c) matches Some(p) ==> digest_of(ctx.hash_function, p) == d,
    decreases c,
{
    if c > 0 {
        lemma_search_sound(map, ctx, d, (c - 1) as nat);
    }
}

/// A search of a table returns only a password that hashes to the digest.
pub proof fn lemma_search_spec_sound(map: Map<u64, u64>, ctx: RainbowTableCtx, d: Seq<u8>)
    ensures
        search_spec(map, ctx, d) matches Some(p) ==> digest_of(ctx.hash_function, p) == d,
{
    lemma_search_sound(map, ctx, d, (ctx.t - 2) as nat);
}

/// A cluster search never returns a password that does not hash to the
/// digest under the hash function of the table that yielded it.
pub proof fn lemma_cluster_sound(maps: Seq<Map<u64, u64>>, ctxs: Seq<RainbowTableCtx>, d: Seq<u8>, c: nat)
    requires
        forall|j: int| 0 <= j < ctxs.len() ==> #[trigger] ctxs[j].hash_function == ctxs[0].hash_function,
        maps.len() <= ctxs.len(),
    ensures
        cluster_from(maps, ctxs, d, c) matches Some(p) ==> digest_of(ctxs[0].hash_function, p) == d,
    decreases c,
{
    lemma_cluster_column_sound(maps, ctxs, d, c, 0);
    if c > 0 {
        lemma_cluster_sound(maps, ctxs, d, (c - 1) as nat);
    }
}

proof fn lemma_cluster_column_sound(maps: Seq<Map<u64, u64>>, ctxs: Seq<RainbowTableCtx>, d: Seq<u8>, c: nat, j: nat)
    requires
        forall|i: int| 0 <= i < ctxs.len() ==> #[trigger] ctxs[i].hash_function == ctxs[0].hash_function,
        maps.len() <= ctxs.len(),
    ensures
        cluster_column(maps, ctxs, d, c, j) matches Some(p) ==> digest_of(ctxs[0].hash_function, p) == d,
    decreases maps.len() - j,
{
    if j < maps.len() {
        assert(ctxs[j as int].hash_function == ctxs[0].hash_function);
        lemma_cluster_column_sound(maps, ctxs, d, c, j + 1);
    }
}

/// Searches for a password in a given column.
pub fn search_column<T: RainbowTable>(table: &T, column: u64, digest: &Vec<u8>) -> (r: Option<Vec<u8>>)
    requires
        table.table_wf(),
        digest@.len() >= 8,
        column <= table.context().t - 2,
    ensures
        r matches Some(p) ==> column_result(table.chain_map(), table.context(), digest@, column as nat) == Some(p@),
        r is None ==> column_result(table.chain_map(), table.context(), digest@, column as nat) is None,
{
    proof {
        table.lemma_table_wf();
    }
    let ctx = table.ctx_ref();
    let ghost cs = ctx.charset@;
    let ghost ml = ctx.max_len();
    let last: u64 = ctx.t - 2;

    // continue the chain from the digest up to the last column
    let mut column_digest: Vec<u8> = copy_digest(digest);
    let mut k: u64 = column;
    while k < last
        invariant
            ctx.wf(),
            *ctx == table.context(),
            column <= k <= last,
            last == ctx.t - 2,
            column_digest@.len() >= 8,
            walk_digest(*ctx, digest@, column as nat, last as nat) == walk_digest(*ctx, column_digest@, k as nat, last as nat),
        decreases last - k,
    {
        let counter = reduce(&column_digest, k, ctx);
        let plaintext = counter_to_plaintext(counter, ctx);
        proof {
            lemma_plaintext_len(ctx.charset@, ctx.max_len(), counter as nat);
        }
        column_digest = ctx.hash_function.hash(plaintext.as_slice());
        k += 1;
    }
    let tail = reduce(&column_digest, last, ctx);
    let startpoint = match table.search_endpoints(tail) {
        None => return None,
        Some(found) => found,
    };

    // replay the chain from its startpoint up to the column
    let mut chain_plaintext = counter_to_plaintext(startpoint, ctx);
    proof {
        lemma_plaintext_len(ctx.charset@, ctx.max_len(), startpoint as nat);
    }
    let ghost p0 = chain_plaintext@;
    let mut k: u64 = 0;
    while k < column
        invariant
            ctx.wf(),
            *ctx == table.context(),
            k <= column,
            chain_plaintext@.len() <= ctx.max_len(),
            replay(*ctx, p0, 0, column as nat) == replay(*ctx, chain_plaintext@, k as nat, column as nat),
        decreases column - k,
    {
        let d = ctx.hash_function.hash(chain_plaintext.as_slice());
        let counter = reduce(&d, k, ctx);
        chain_plaintext = counter_to_plaintext(counter, ctx);
        proof {
            lemma_plaintext_len(ctx.charset@, ctx.max_len(), counter as nat);
        }
        k += 1;
    }
    let confirm = ctx.hash_function.hash(chain_plaintext.as_slice());
    if bytes_equal(&confirm, digest) {
        Some(chain_plaintext)
    } else {
        None
    }
}

/// A copy of a digest.
fn copy_digest(d: &Vec<u8>) -> (r: Vec<u8>)
    ensures
        r@ == d@,
{
    let mut v: Vec<u8> = Vec::new();
    let mut i: usize = 0;
    while i < d.len()
        invariant
            0 <= i <= d@.len(),
            v@ == d@.take(i as int),
        decreases d@.len() - i,
    {
        v.push(d[i]);
        i += 1;
        assert(v@ =~= d@.take(i as int));
    }
    assert(d@.take(i as int) =~= d@);
    v
}

/// Whether two byte strings are equal.
fn bytes_equal(a: &Vec<u8>, b: &Vec<u8>) -> (r: bool)
    ensures
        r == (a@ == b@),
{
    if a.len() != b.len() {
        return false;
    }
    let mut i: usize = 0;
    while i < a.len()
        invariant
            0 <= i <= a@.len(),
            a@.len() == b@.len(),
            forall|j: int| 0 <= j < i ==> a@[j] == b@[j],
        decreases a@.len() - i,
    {
        if a[i] != b[i] {
            return false;
        }
        i += 1;
    }
    assert(a@ =~= b@);
    true
}

/// Searches a table for a password that hashes to the given digest: the
/// columns from the last to the first, the first that yields.
pub fn search<T: RainbowTable>(table: &T, digest: &Vec<u8>) -> (r: Option<Vec<u8>>)
    requires
        table.table_wf(),
    ensures
        r matches Some(p) ==> search_spec(table.chain_map(), table.context(), digest@) == Some(p@),
        r is None ==> search_spec(table.chain_map(), table.context(), digest@) is None,
{
    proof {
        table.lemma_table_wf();
    }
    let ctx = table.ctx_ref();
    if digest.len() != ctx.hash_function.digest_size() {
        return None;
    }
    let mut c: u64 = ctx.t - 2;
    loop
        invariant
            table.table_wf(),
            table.context().wf(),
            digest@.len() == digest_size_spec(table.context().hash_function),
            c <= table.context().t - 2,
            search_from(table.chain_map(), table.context(), digest@, (table.context().t - 2) as nat)
                == search_from(table.chain_map(), table.context(), digest@, c as nat),
        decreases c,
    {
        match search_column(table, c, digest) {
            Some(p) => return Some(p),
            None => {},
        }
        if c == 0 {
            return None;
        }
        c -= 1;
    }
}

/// A cluster of tables sharing their space and hash function but not their
/// table number, to raise the success rate.
pub struct ClusterTable<'a, T: RainbowTable> {
    tables: &'a [T],
}

impl<'a, T: RainbowTable> ClusterTable<'a, T> {
    /// The chains of each table.
    pub closed spec fn maps(&self) -> Seq<Map<u64, u64>> {
        Seq::new(self.tables@.len(), |j: int| self.tables@[j].chain_map())
    }

    /// The context of each table.
    pub closed spec fn ctxs(&self) -> Seq<RainbowTableCtx> {
        Seq::new(self.tables@.len(), |j: int| self.tables@[j].context())
    }

    /// The tables are consistent, at least one, with the same chain length
    /// and hash function.
    pub closed spec fn cluster_wf(&self) -> bool {
        &&& self.tables@.len() >= 1
        &&& forall|j: int| 0 <= j < self.tables@.len() ==> #[trigger] self.tables@[j].table_wf()
        &&& forall|j: int|
            0 <= j < self.tables@.len() ==> #[trigger] self.tables@[j].context().t
                == self.tables@[0].context().t && self.tables@[j].context().hash_function
                == self.tables@[0].context().hash_function
    }

    /// Creates a new table cluster.
    pub fn new(tables: &'a [T]) -> (r: Self)
        requires
            tables@.len() >= 1,
            forall|j: int| 0 <= j < tables@.len() ==> #[trigger] tables@[j].table_wf(),
            forall|j: int|
                0 <= j < tables@.len() ==> #[trigger] tables@[j].context().t == tables@[0].context().t
                    && tables@[j].context().hash_function == tables@[0].context().hash_function,
        ensures
            r.cluster_wf(),
            r.maps() == Seq::new(tables@.len(), |j: int| tables@[j].chain_map()),
            r.ctxs() == Seq::new(tables@.len(), |j: int| tables@[j].context()),
    {
        let r = ClusterTable { tables };
        assert(r.tables@ == tables@);
        assert forall|j: int| 0 <= j < r.tables@.len() implies #[trigger] r.tables@[j].table_wf() by {
            assert(tables@[j].table_wf());
        }
        assert forall|j: int| 0 <= j < r.tables@.len() implies #[trigger] r.tables@[j].context().t
            == r.tables@[0].context().t && r.tables@[j].context().hash_function
            == r.tables@[0].context().hash_function by {
            assert(tables@[j].context().t == tables@[0].context().t);
        }
        r
    }

    /// Searches the cluster: the columns from the last to the first, and at
    /// each column the tables in order; the first that yields.
    pub fn search(&self, digest: &Vec<u8>) -> (r: Option<Vec<u8>>)
        requires
            self.cluster_wf(),
        ensures
            digest@.len() != digest_size_spec(self.ctxs()[0].hash_function) ==> r is None,
            digest@.len() == digest_size_spec(self.ctxs()[0].hash_function) ==> {
                &&& r matches Some(p) ==> cluster_from(self.maps(), self.ctxs(), digest@, (self.ctxs()[0].t - 2) as nat) == Some(p@)
                &&& r is None ==> cluster_from(self.maps(), self.ctxs(), digest@, (self.ctxs()[0].t - 2) as nat) is None
            },
    {
        let first = &self.tables[0];
        proof {
            first.lemma_table_wf();
        }
        let ctx = first.ctx_ref();
        if digest.len() != ctx.hash_function.digest_size() {
            return None;
        }
        let ghost maps = self.maps();
        let ghost ctxs = self.ctxs();
        let ghost top = (ctx.t - 2) as nat;
        let mut c: u64 = ctx.t - 2;
        loop
            invariant
                self.cluster_wf(),
                maps == self.maps(),
                ctxs == self.ctxs(),
                top == (ctxs[0].t - 2) as nat,
                ctxs[0].wf(),
                digest@.len() == digest_size_spec(ctxs[0].hash_function),
                c <= top,
                cluster_from(maps, ctxs, digest@, top) == cluster_from(maps, ctxs, digest@, c as nat),
            decreases c,
        {
            let mut j: usize = 0;
            while j < self.tables.len()
                invariant
                    self.cluster_wf(),
                    maps == self.maps(),
                    ctxs == self.ctxs(),
                    ctxs[0].wf(),
                    c <= (ctxs[0].t - 2),
                    digest@.len() == digest_size_spec(ctxs[0].hash_function),
                    0 <= j <= self.tables@.len(),
                    top == (ctxs[0].t - 2) as nat,
                    cluster_from(maps, ctxs, digest@, top) == cluster_from(maps, ctxs, digest@, c as nat),
                    cluster_column(maps, ctxs, digest@, c as nat, 0) == cluster_column(maps, ctxs, digest@, c as nat, j as nat),
                decreases self.tables@.len() - j,
            {
                let table = &self.tables[j];
                proof {
                    table.lemma_table_wf();
                    assert(digest_size_spec(ctxs[0].hash_function) >= 8);
                }
                let found = search_column(table, c, digest);
                proof {
                    assert(maps[j as int] == table.chain_map());
                    assert(ctxs[j as int] == table.context());
                }
                match found {
                    Some(p) => {
                        assert(cluster_column(maps, ctxs, digest@, c as nat, j as nat) == Some(p@));
                        assert(cluster_from(maps, ctxs, digest@, c as nat) == Some(p@));
                        return Some(p);
                    },
                    None => {},
                }
                j += 1;
            }
            if c == 0 {
                return None;
            }
            c -= 1;
        }
    }
}

} // verus!
