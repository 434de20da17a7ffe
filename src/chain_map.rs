//! An open-addressed, linearly probed map from endpoints to startpoints.
use vstd::prelude::*;

use crate::error::CugparckError;
use crate::CompressedPassword;

verus! {

/// A chain of the rainbow table, made of a startpoint and an endpoint.
#[derive(Clone, Copy, Debug, PartialEq, Eq, Structural)]
pub struct RainbowChain {
    pub startpoint: CompressedPassword,
    pub endpoint: CompressedPassword,
}

impl RainbowChain {
    /// Creates a chain from its two counters.
    pub fn from_compressed(startpoint: CompressedPassword, endpoint: CompressedPassword) -> (r:
        RainbowChain)
        ensures
            r.startpoint == startpoint,
            r.endpoint == endpoint,
    {
        RainbowChain { startpoint, endpoint }
    }
}

/// The endpoint that marks an empty slot; no counter of a space reaches it.
pub const VACANT_ENDPOINT: u64 = 0xffff_ffff_ffff_ffff;

/// A slot holds a chain.
pub open spec fn occupied(c: RainbowChain) -> bool {
    c.endpoint != VACANT_ENDPOINT
}

/// The slot reached `d` steps after slot `h` in a table of `cap` slots.
pub open spec fn slot_at(h: int, d: int, cap: int) -> int {
    if h + d < cap {
        h + d
    } else {
        h + d - cap
    }
}

/// The slot where the probe for endpoint `e` starts.
pub open spec fn home(e: u64, cap: int) -> int {
    (e as int) % cap
}

/// How many steps after slot `h` slot `j` comes, in a table of `cap` slots.
pub open spec fn dist(h: int, j: int, cap: int) -> int {
    if j >= h {
        j - h
    } else {
        j + cap - h
    }
}

/// The number of occupied slots.
pub open spec fn count_occupied(s: Seq<RainbowChain>) -> nat
    decreases s.len(),
{
    if s.len() == 0 {
        0
    } else {
        count_occupied(s.drop_last()) + if occupied(s.last()) {
            1nat
        } else {
            0nat
        }
    }
}

/// The slots hold distinct endpoints, and the slots between an endpoint's
/// home slot and the slot holding it are all occupied.
pub open spec fn slots_wf(s: Seq<RainbowChain>) -> bool {
    let cap = s.len() as int;
    &&& forall|i: int, j: int|
        0 <= i < cap && 0 <= j < cap && i != j && occupied(s[i]) && occupied(s[j])
            ==> s[i].endpoint != s[j].endpoint
    &&& forall|j: int, d: int|
        0 <= j < cap && occupied(s[j]) && 0 <= d < dist(
            home(s[j].endpoint, cap),
            j,
            cap,
        ) ==> #[trigger] occupied(
            s[slot_at(home(s[j].endpoint, cap), d, cap)],
        )
}

/// The map held by the slots.
pub open spec fn slots_map(s: Seq<RainbowChain>) -> Map<u64, u64> {
    Map::new(
        |e: u64| exists|j: int| 0 <= j < s.len() && occupied(s[j]) && s[j].endpoint == e,
        |e: u64|
            s[choose|j: int| 0 <= j < s.len() && occupied(s[j]) && s[j].endpoint == e].startpoint,
    )
}

proof fn lemma_count_bound(s: Seq<RainbowChain>)
    ensures
        count_occupied(s) <= s.len(),
        (exists|j: int| 0 <= j < s.len() && !occupied(s[j])) ==> count_occupied(s) < s.len(),
        (forall|j: int| 0 <= j < s.len() ==> occupied(s[j])) ==> count_occupied(s) == s.len(),
    decreases s.len(),
{
    if s.len() > 0 {
        let t = s.drop_last();
        lemma_count_bound(t);
        if exists|j: int| 0 <= j < s.len() && !occupied(s[j]) {
            let j = choose|j: int| 0 <= j < s.len() && !occupied(s[j]);
            if j < s.len() - 1 {
                assert(!occupied(t[j]));
            }
        }
        if forall|j: int| 0 <= j < s.len() ==> occupied(s[j]) {
            assert forall|j: int| 0 <= j < t.len() implies occupied(t[j]) by {
                assert(t[j] == s[j]);
            }
        }
    }
}

proof fn lemma_count_update(s: Seq<RainbowChain>, i: int, c: RainbowChain)
    requires
        0 <= i < s.len(),
    ensures
        count_occupied(s.update(i, c)) + (if occupied(s[i]) {
            1nat
        } else {
            0nat
        }) == count_occupied(s) + (if occupied(c) {
            1nat
        } else {
            0nat
        }),
    decreases s.len(),
{
    let u = s.update(i, c);
    if i == s.len() - 1 {
        assert(u.drop_last() =~= s.drop_last());
    } else {
        assert(u.drop_last() =~= s.drop_last().update(i, c));
        lemma_count_update(s.drop_last(), i, c);
    }
}

proof fn lemma_count_all_vacant(n: nat)
    ensures
        count_occupied(
            Seq::new(n, |i: int| RainbowChain { startpoint: VACANT_ENDPOINT, endpoint: VACANT_ENDPOINT }),
        ) == 0,
    decreases n,
{
    let s = Seq::new(n, |i: int| RainbowChain { startpoint: VACANT_ENDPOINT, endpoint: VACANT_ENDPOINT });
    if n > 0 {
        lemma_count_all_vacant((n - 1) as nat);
        assert(s.drop_last() =~= Seq::new((n - 1) as nat, |i: int| RainbowChain { startpoint: VACANT_ENDPOINT, endpoint: VACANT_ENDPOINT }));
    }
}

/// If a probe from the home slot of `e` meets only other endpoints for `k`
/// steps and then an empty slot, no slot holds `e`.
proof fn lemma_absent(s: Seq<RainbowChain>, e: u64, k: int)
    requires
        slots_wf(s),
        s.len() > 0,
        0 <= k < s.len(),
        forall|d: int|
            0 <= d < k ==> #[trigger] occupied(
                s[slot_at(home(e, s.len() as int), d, s.len() as int)],
            ) && s[slot_at(home(e, s.len() as int), d, s.len() as int)].endpoint != e,
        !occupied(s[slot_at(home(e, s.len() as int), k, s.len() as int)]),
    ensures
        !slots_map(s).contains_key(e),
{
    let cap = s.len() as int;
    let h = home(e, cap);
    if exists|j: int| 0 <= j < cap && occupied(s[j]) && s[j].endpoint == e {
        let j = choose|j: int| 0 <= j < cap && occupied(s[j]) && s[j].endpoint == e;
        let dj = dist(h, j, cap);
        assert(slot_at(h, dj, cap) == j);
        if dj < k {
            assert(occupied(s[slot_at(h, dj, cap)]));
        } else if dj > k {
            assert(occupied(s[slot_at(h, k, cap)]));
        }
    }
}

/// Every slot holding an endpoint gives that endpoint's startpoint in the map.
proof fn lemma_map_at(s: Seq<RainbowChain>, j: int)
    requires
        slots_wf(s),
        0 <= j < s.len(),
        occupied(s[j]),
    ensures
        slots_map(s).contains_key(s[j].endpoint),
        slots_map(s)[s[j].endpoint] == s[j].startpoint,
{
    let e = s[j].endpoint;
    let i = choose|i: int| 0 <= i < s.len() && occupied(s[i]) && s[i].endpoint == e;
    assert(i == j);
}

/// Relies on `Vec::try_reserve_exact`: on success the vector can hold
/// `additional` more items without reallocating; either way its items are
/// unchanged.
#[verifier::external_body]
fn try_reserve_exact(v: &mut Vec<RainbowChain>, additional: usize) -> (r: bool)
    ensures
        final(v)@ == old(v)@,
{
    v.try_reserve_exact(additional).is_ok()
}

/// The number of slots for `m0` chains: a load factor of 0.7.
pub open spec fn slots_for(m0: u64) -> nat {
    (m0 as nat * 10) / 7
}

/// The chains of occupied slots, in slot order.
pub open spec fn occupied_chains(s: Seq<RainbowChain>) -> Seq<RainbowChain>
    decreases s.len(),
{
    if s.len() == 0 {
        seq![]
    } else {
        let r = occupied_chains(s.drop_last());
        if occupied(s.last()) {
            r.push(s.last())
        } else {
            r
        }
    }
}

/// Occupied slots hold distinct endpoints.
pub open spec fn distinct_endpoints(s: Seq<RainbowChain>) -> bool {
    forall|i: int, j: int|
        0 <= i < s.len() && 0 <= j < s.len() && i != j && occupied(s[i]) && occupied(s[j])
            ==> s[i].endpoint != s[j].endpoint
}

/// The occupied chains of well-formed slots are the map's entries, each once.
proof fn lemma_occupied_chains(s: Seq<RainbowChain>)
    requires
        slots_wf(s),
    ensures
        occupied_chains(s).len() == count_occupied(s),
        forall|i: int| 0 <= i < occupied_chains(s).len() ==> #[trigger] slots_map(s).contains_key(occupied_chains(s)[i].endpoint)
            && slots_map(s)[occupied_chains(s)[i].endpoint] == occupied_chains(s)[i].startpoint,
        forall|e: u64| #[trigger] slots_map(s).contains_key(e) ==> exists|i: int| 0 <= i < occupied_chains(s).len() && occupied_chains(s)[i].endpoint == e,
        forall|i: int, j: int| 0 <= i < j < occupied_chains(s).len() ==> occupied_chains(s)[i].endpoint != occupied_chains(s)[j].endpoint,
{
    let f = occupied_chains(s);
    lemma_filter_index(s);
    lemma_count_bound(s);
    assert forall|i: int| 0 <= i < f.len() implies #[trigger] slots_map(s).contains_key(f[i].endpoint)
        && slots_map(s)[f[i].endpoint] == f[i].startpoint by {
        let j = choose|j: int| 0 <= j < s.len() && s[j] == f[i] && occupied(s[j]);
        lemma_map_at(s, j);
    }
    assert forall|e: u64| #[trigger] slots_map(s).contains_key(e) implies exists|i: int| 0 <= i < f.len() && f[i].endpoint == e by {
        let j = choose|j: int| 0 <= j < s.len() && occupied(s[j]) && s[j].endpoint == e;
        assert(f.contains(s[j]));
    }
}

/// Each chain of the filter comes from an occupied slot, each occupied slot
/// is in the filter, and slots with distinct endpoints stay distinct.
proof fn lemma_filter_index(s: Seq<RainbowChain>)
    requires
        distinct_endpoints(s),
    ensures
        occupied_chains(s).len() == count_occupied(s),
        forall|i: int| 0 <= i < occupied_chains(s).len() ==> exists|j: int| 0 <= j < s.len() && s[j] == #[trigger] occupied_chains(s)[i] && occupied(s[j]),
        forall|j: int| 0 <= j < s.len() && occupied(s[j]) ==> occupied_chains(s).contains(#[trigger] s[j]),
        forall|i: int, j: int| 0 <= i < j < occupied_chains(s).len() ==> occupied_chains(s)[i].endpoint != occupied_chains(s)[j].endpoint,
    decreases s.len(),
{
    if s.len() > 0 {
        let t = s.drop_last();
        let ft = occupied_chains(t);
        let f = occupied_chains(s);
        let n = s.len() - 1;
        assert(distinct_endpoints(t)) by {
            assert forall|i: int, j: int|
                0 <= i < t.len() && 0 <= j < t.len() && i != j && occupied(t[i]) && occupied(t[j])
                implies t[i].endpoint != t[j].endpoint by {
                assert(t[i] == s[i] && t[j] == s[j]);
            }
        }
        lemma_filter_index(t);
        assert forall|i: int| 0 <= i < f.len() implies exists|j: int| 0 <= j < s.len() && s[j] == #[trigger] f[i] && occupied(s[j]) by {
            if i < ft.len() {
                assert(f[i] == ft[i]);
                let j = choose|j: int| 0 <= j < t.len() && t[j] == ft[i] && occupied(t[j]);
                assert(s[j] == t[j]);
            } else {
                assert(s[n] == f[i]);
            }
        }
        assert forall|j: int| 0 <= j < s.len() && occupied(s[j]) implies f.contains(#[trigger] s[j]) by {
            if j < n {
                assert(t[j] == s[j]);
                assert(ft.contains(t[j]));
                let k = choose|k: int| 0 <= k < ft.len() && ft[k] == t[j];
                if occupied(s.last()) {
                    assert(f[k] == ft[k]);
                }
            } else {
                assert(f[f.len() - 1] == s[j]);
            }
        }
        assert forall|i: int, j: int| 0 <= i < j < f.len() implies f[i].endpoint != f[j].endpoint by {
            if j < ft.len() {
                assert(f[i] == ft[i] && f[j] == ft[j]);
            } else {
                assert(f[i] == ft[i]);
                let k = choose|k: int| 0 <= k < t.len() && t[k] == ft[i] && occupied(t[k]);
                assert(s[k] == t[k]);
                assert(f[j] == s[n]);
            }
        }
    }
}

/// An open-addressed map from endpoints to startpoints, keeping the first
/// chain inserted for each endpoint.
pub struct RainbowChainMap {
    inner: Vec<RainbowChain>,
    len: usize,
}

impl View for RainbowChainMap {
    type V = Map<u64, u64>;

    closed spec fn view(&self) -> Map<u64, u64> {
        slots_map(self.inner@)
    }
}

impl RainbowChainMap {
    /// The slots are consistent and `len` counts the occupied ones.
    pub closed spec fn wf(&self) -> bool {
        &&& self.inner@.len() > 0
        &&& slots_wf(self.inner@)
        &&& self.len == count_occupied(self.inner@)
    }

    /// The number of chains.
    pub closed spec fn len_spec(&self) -> nat {
        self.len as nat
    }

    /// The number of slots.
    pub closed spec fn cap_spec(&self) -> nat {
        self.inner@.len()
    }

    /// Every endpoint of the map is a counter, never the empty-slot marker.
    pub proof fn lemma_keys(&self)
        requires
            self.wf(),
        ensures
            !self@.contains_key(VACANT_ENDPOINT),
            self.len_spec() <= self.cap_spec(),
    {
        lemma_count_bound(self.inner@);
    }

    /// Creates an empty map with `cap` slots.
    pub fn with_capacity(cap: usize) -> (r: Self)
        requires
            cap > 0,
        ensures
            r.wf(),
            r@ == Map::<u64, u64>::empty(),
            r.len_spec() == 0,
            r.cap_spec() == cap,
    {
        let inner: Vec<RainbowChain> = vec![RainbowChain { startpoint: VACANT_ENDPOINT, endpoint: VACANT_ENDPOINT }; cap];
        proof {
            lemma_count_all_vacant(cap as nat);
            assert(inner@ =~= Seq::new(cap as nat, |i: int| RainbowChain { startpoint: VACANT_ENDPOINT, endpoint: VACANT_ENDPOINT }));
        }
        let r = RainbowChainMap { inner, len: 0 };
        assert(r@ =~= Map::<u64, u64>::empty());
        r
    }

    /// Empties the map, keeping its slots.
    pub fn clear(&mut self)
        requires
            old(self).wf(),
        ensures
            final(self).wf(),
            final(self)@ == Map::<u64, u64>::empty(),
            final(self).len_spec() == 0,
            final(self).cap_spec() == old(self).cap_spec(),
    {
        let cap = self.inner.len();
        *self = Self::with_capacity(cap);
    }

    /// Creates a new, empty map sized for `m0` chains.
    pub fn new(m0: u64) -> (r: Result<Self, CugparckError>)
        requires
            m0 >= 1,
        ensures
            r matches Ok(map) ==> map.wf() && map@ == Map::<u64, u64>::empty() && map.len_spec()
                == 0 && map.cap_spec() == slots_for(m0),
            r matches Err(e) ==> e == CugparckError::OutOfMemory,
            slots_for(m0) > usize::MAX ==> r is Err,
    {
        let cap128: u128 = m0 as u128 * 10 / 7;
        if cap128 > usize::MAX as u128 {
            return Err(CugparckError::OutOfMemory);
        }
        let cap = cap128 as usize;
        let mut inner: Vec<RainbowChain> = Vec::new();
        if !try_reserve_exact(&mut inner, cap) {
            return Err(CugparckError::OutOfMemory);
        }
        let mut i: usize = 0;
        while i < cap
            invariant
                0 <= i <= cap,
                inner@ =~= Seq::new(i as nat, |j: int| RainbowChain { startpoint: VACANT_ENDPOINT, endpoint: VACANT_ENDPOINT }),
            decreases cap - i,
        {
            inner.push(RainbowChain { startpoint: VACANT_ENDPOINT, endpoint: VACANT_ENDPOINT });
            i += 1;
        }
        proof {
            lemma_count_all_vacant(cap as nat);
        }
        let r = RainbowChainMap { inner, len: 0 };
        assert(r@ =~= Map::<u64, u64>::empty());
        Ok(r)
    }

    /// The chains of the map, each once, in slot order.
    pub fn entries(&self) -> (r: Vec<RainbowChain>)
        requires
            self.wf(),
        ensures
            r@.len() == self.len_spec(),
            forall|i: int| 0 <= i < r@.len() ==> #[trigger] self@.contains_key(r@[i].endpoint)
                && self@[r@[i].endpoint] == r@[i].startpoint,
            forall|e: u64| #[trigger] self@.contains_key(e) ==> exists|i: int| 0 <= i < r@.len() && r@[i].endpoint == e,
            forall|i: int, j: int| 0 <= i < j < r@.len() ==> r@[i].endpoint != r@[j].endpoint,
    {
        let ghost s = self.inner@;
        let mut out: Vec<RainbowChain> = Vec::new();
        let mut i: usize = 0;
        while i < self.inner.len()
            invariant
                self.wf(),
                s == self.inner@,
                0 <= i <= s.len(),
                out@ == occupied_chains(s.take(i as int)),
            decreases s.len() - i,
        {
            let c = self.inner[i];
            proof {
                assert(s.take(i + 1).drop_last() =~= s.take(i as int));
            }
            if c.endpoint != VACANT_ENDPOINT {
                out.push(c);
            }
            i += 1;
        }
        proof {
            assert(s.take(s.len() as int) =~= s);
            lemma_occupied_chains(s);
        }
        out
    }

    /// The number of chains in the map.
    pub fn len(&self) -> (r: usize)
        requires
            self.wf(),
        ensures
            r == self.len_spec(),
    {
        self.len
    }

    /// The number of slots of the map.
    pub fn capacity(&self) -> (r: usize)
        requires
            self.wf(),
        ensures
            r == self.cap_spec(),
    {
        self.inner.len()
    }

    /// Inserts a chain. A chain whose endpoint is already present is
    /// discarded, whatever its startpoint; so is any chain once every slot is
    /// taken, and one whose endpoint is the empty-slot marker.
    pub fn insert(&mut self, chain: RainbowChain)
        requires
            old(self).wf(),
        ensures
            final(self).wf(),
            final(self).cap_spec() == old(self).cap_spec(),
            if occupied(chain) && !old(self)@.contains_key(chain.endpoint) && old(self).len_spec()
                < old(self).cap_spec() {
                &&& final(self)@ == old(self)@.insert(chain.endpoint, chain.startpoint)
                &&& final(self).len_spec() == old(self).len_spec() + 1
            } else {
                &&& final(self)@ == old(self)@
                &&& final(self).len_spec() == old(self).len_spec()
            },
    {
        if chain.endpoint == VACANT_ENDPOINT {
            return;
        }
        let ghost s = self.inner@;
        let cap = self.inner.len();
        let ghost e = chain.endpoint;
        let ghost h = home(e, cap as int);
        let mut index: usize = (chain.endpoint % (cap as u64)) as usize;
        let mut k: usize = 0;
        proof {
            vstd::arithmetic::div_mod::lemma_mod_bound(e as int, cap as int);
        }
        while k < cap
            invariant
                self.wf(),
                self.inner@ == s,
                old(self).inner@ == s,
                old(self).len == self.len,
                cap == s.len(),
                e == chain.endpoint,
                occupied(chain),
                h == home(e, cap as int),
                0 <= h < cap,
                0 <= k <= cap,
                index == slot_at(h, k as int, cap as int) || k == cap,
                0 <= index < cap,
                forall|d: int|
                    0 <= d < k ==> #[trigger] occupied(s[slot_at(h, d, cap as int)]) && s[slot_at(
                        h,
                        d,
                        cap as int,
                    )].endpoint != e,
            decreases cap - k,
        {
            let entry = self.inner[index];
            if entry.endpoint == VACANT_ENDPOINT {
                proof {
                    assert(h == home(e, s.len() as int));
                    assert(index == slot_at(h, k as int, cap as int));
                    assert forall|d: int| 0 <= d < k implies #[trigger] occupied(
                        s[slot_at(home(e, s.len() as int), d, s.len() as int)],
                    ) && s[slot_at(home(e, s.len() as int), d, s.len() as int)].endpoint != e by {
                        assert(occupied(s[slot_at(h, d, cap as int)]));
                    }
                    lemma_absent(s, e, k as int);
                    lemma_count_bound(s);
                    lemma_count_update(s, index as int, chain);
                }
                self.inner.set(index, chain);
                self.len = self.len + 1;
                proof {
                    let t = self.inner@;
                    assert(t == s.update(index as int, chain));
                    assert forall|j: int, d: int|
                        0 <= j < cap && occupied(t[j]) && 0 <= d < dist(
                            home(t[j].endpoint, cap as int),
                            j,
                            cap as int,
                        ) implies #[trigger] occupied(
                        t[slot_at(home(t[j].endpoint, cap as int), d, cap as int)],
                    ) by {
                        let hj = home(t[j].endpoint, cap as int);
                        if j == index {
                            assert(dist(h, index as int, cap as int) == k);
                        } else {
                            assert(occupied(s[slot_at(hj, d, cap as int)]));
                        }
                    }
                    assert forall|i: int, j: int|
                        0 <= i < cap && 0 <= j < cap && i != j && occupied(t[i]) && occupied(
                            t[j],
                        ) implies t[i].endpoint != t[j].endpoint by {
                        if i == index {
                            lemma_map_at(s, j);
                        } else if j == index {
                            lemma_map_at(s, i);
                        }
                    }
                    assert(slots_map(t) =~= slots_map(s).insert(e, chain.startpoint)) by {
                        assert forall|x: u64| #[trigger]
                            slots_map(t).contains_key(x) == slots_map(s).insert(
                                e,
                                chain.startpoint,
                            ).contains_key(x) by {
                            if slots_map(s).contains_key(x) {
                                let j = choose|j: int|
                                    0 <= j < s.len() && occupied(s[j]) && s[j].endpoint == x;
                                assert(j != index);
                                assert(t[j] == s[j]);
                            }
                            if slots_map(t).contains_key(x) && x != e {
                                let j = choose|j: int|
                                    0 <= j < t.len() && occupied(t[j]) && t[j].endpoint == x;
                                assert(j != index);
                                assert(s[j] == t[j]);
                            }
                            if x == e {
                                assert(occupied(t[index as int]) && t[index as int].endpoint == e);
                            }
                        }
                        assert forall|x: u64| #[trigger] slots_map(t).contains_key(x) implies slots_map(t)[x]
                            == slots_map(s).insert(e, chain.startpoint)[x] by {
                            let j = choose|j: int|
                                0 <= j < t.len() && occupied(t[j]) && t[j].endpoint == x;
                            lemma_map_at(t, j);
                            if x != e {
                                assert(j != index);
                                lemma_map_at(s, j);
                            } else {
                                lemma_map_at(t, index as int);
                            }
                        }
                    }
                    assert(self.inner@.len() == s.len());
                    assert(self@ == slots_map(s).insert(e, chain.startpoint));
                    assert(self.len == count_occupied(s) + 1);
                }
                return;
            }
            if entry.endpoint == chain.endpoint {
                proof {
                    lemma_map_at(s, index as int);
                }
                return;
            }
            assert(index == slot_at(h, k as int, cap as int));
            assert(occupied(s[slot_at(h, k as int, cap as int)]) && s[slot_at(h, k as int, cap as int)].endpoint != e);
            index = if index + 1 == cap {
                0
            } else {
                index + 1
            };
            k += 1;
            assert forall|d: int| 0 <= d < k implies #[trigger] occupied(s[slot_at(h, d, cap as int)])
                && s[slot_at(h, d, cap as int)].endpoint != e by {
                if d < k - 1 {
                    assert(occupied(s[slot_at(h, d, cap as int)]));
                }
            }
        }
        proof {
            assert forall|j: int| 0 <= j < cap implies occupied(#[trigger] s[j]) by {
                let d = dist(h, j, cap as int);
                assert(slot_at(h, d, cap as int) == j);
            }
            lemma_count_bound(s);
        }
    }

    /// Returns the startpoint associated to an endpoint, if it exists.
    pub fn get(&self, endpoint: CompressedPassword) -> (r: Option<CompressedPassword>)
        requires
            self.wf(),
        ensures
            r == (if self@.contains_key(endpoint) {
                Some(self@[endpoint])
            } else {
                None
            }),
    {
        let ghost s = self.inner@;
        let cap = self.inner.len();
        let ghost e = endpoint;
        let ghost h = home(e, cap as int);
        if endpoint == VACANT_ENDPOINT {
            proof {
                self.lemma_keys();
            }
            return None;
        }
        let mut index: usize = (endpoint % (cap as u64)) as usize;
        let mut k: usize = 0;
        proof {
            vstd::arithmetic::div_mod::lemma_mod_bound(e as int, cap as int);
        }
        while k < cap
            invariant
                self.wf(),
                self.inner@ == s,
                cap == s.len(),
                e == endpoint,
                e != VACANT_ENDPOINT,
                h == home(e, cap as int),
                0 <= h < cap,
                0 <= k <= cap,
                index == slot_at(h, k as int, cap as int) || k == cap,
                0 <= index < cap,
                forall|d: int|
                    0 <= d < k ==> #[trigger] occupied(s[slot_at(h, d, cap as int)]) && s[slot_at(
                        h,
                        d,
                        cap as int,
                    )].endpoint != e,
            decreases cap - k,
        {
            let entry = self.inner[index];
            if entry.endpoint == VACANT_ENDPOINT {
                proof {
                    assert(h == home(e, s.len() as int));
                    assert(index == slot_at(h, k as int, cap as int));
                    assert forall|d: int| 0 <= d < k implies #[trigger] occupied(
                        s[slot_at(home(e, s.len() as int), d, s.len() as int)],
                    ) && s[slot_at(home(e, s.len() as int), d, s.len() as int)].endpoint != e by {
                        assert(occupied(s[slot_at(h, d, cap as int)]));
                    }
                    lemma_absent(s, e, k as int);
                }
                return None;
            }
            if entry.endpoint == endpoint {
                proof {
                    lemma_map_at(s, index as int);
                }
                return Some(entry.startpoint);
            }
            assert(index == slot_at(h, k as int, cap as int));
            assert(occupied(s[slot_at(h, k as int, cap as int)]) && s[slot_at(h, k as int, cap as int)].endpoint != e);
            index = if index + 1 == cap {
                0
            } else {
                index + 1
            };
            k += 1;
            assert forall|d: int| 0 <= d < k implies #[trigger] occupied(s[slot_at(h, d, cap as int)])
                && s[slot_at(h, d, cap as int)].endpoint != e by {
                if d < k - 1 {
                    assert(occupied(s[slot_at(h, d, cap as int)]));
                }
            }
        }
        proof {
            if slots_map(s).contains_key(e) {
                let j = choose|j: int| 0 <= j < s.len() && occupied(s[j]) && s[j].endpoint == e;
                let d = dist(h, j, cap as int);
                assert(slot_at(h, d, cap as int) == j);
            }
        }
        None
    }
}

} // verus!
