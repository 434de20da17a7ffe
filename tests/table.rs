use cugparck::chain_map::{RainbowChain, RainbowChainMap};
use cugparck::codec::counter_to_plaintext;
use cugparck::ctx::RainbowTableCtxBuilder;
use cugparck::hash::HashFunction;
use cugparck::kernel::continue_chain;
use cugparck::search::{search, ClusterTable};
use cugparck::table::{RainbowTable, SimpleTable};

#[test]
fn chain_map_keeps_the_first_chain_per_endpoint() {
    let mut map = RainbowChainMap::new(4).unwrap();
    assert_eq!(5, map.capacity());
    map.insert(RainbowChain::from_compressed(1, 10));
    map.insert(RainbowChain::from_compressed(2, 15));
    map.insert(RainbowChain::from_compressed(3, 10));
    assert_eq!(2, map.len());
    assert_eq!(Some(1), map.get(10));
    assert_eq!(Some(2), map.get(15));
    assert_eq!(None, map.get(20));
    map.clear();
    assert_eq!(0, map.len());
    assert_eq!(None, map.get(10));
}

#[test]
fn chain_map_probes_past_collisions_and_stops_when_full() {
    let mut map = RainbowChainMap::new(2).unwrap();
    assert_eq!(2, map.capacity());
    map.insert(RainbowChain::from_compressed(7, 4));
    map.insert(RainbowChain::from_compressed(8, 6));
    map.insert(RainbowChain::from_compressed(9, 8));
    assert_eq!(2, map.len());
    assert_eq!(Some(7), map.get(4));
    assert_eq!(Some(8), map.get(6));
    assert_eq!(None, map.get(8));
    let mut entries = map.entries();
    entries.sort_by_key(|c| c.endpoint);
    assert_eq!(vec![RainbowChain::from_compressed(7, 4), RainbowChain::from_compressed(8, 6)], entries);
}

#[test]
fn chain_map_too_large_for_memory() {
    assert!(matches!(RainbowChainMap::new(u64::MAX), Err(cugparck::error::CugparckError::OutOfMemory)));
}

#[test]
fn from_vec_keeps_unique_endpoints() {
    let ctx = RainbowTableCtxBuilder::new().charset(b"abc").build().unwrap();
    let chains = vec![
        RainbowChain::from_compressed(1, 100),
        RainbowChain::from_compressed(2, 200),
        RainbowChain::from_compressed(3, 100),
    ];
    let table = SimpleTable::from_vec(chains, ctx).unwrap();
    assert_eq!(2, table.len());
    assert_eq!(Some(1), table.search_endpoints(100));
    assert_eq!(Some(2), table.search_endpoints(200));
    assert_eq!(None, table.search_endpoints(300));
}

#[test]
fn generated_chains_end_where_the_kernel_takes_them() {
    let ctx = RainbowTableCtxBuilder::new()
        .hash(HashFunction::Md4)
        .charset(b"abc")
        .max_password_length(3)
        .chain_length(10)
        .startpoints(Some(30))
        .build()
        .unwrap();
    let table = SimpleTable::new(ctx.duplicate(), vec![3, 6]).unwrap();
    let chains = table.chains();
    assert!(table.len() <= 30);
    assert_eq!(table.len(), chains.len());
    for c in &chains {
        assert!(c.startpoint < 30);
        assert_eq!(c.endpoint, continue_chain(c.startpoint, 0, 9, &ctx));
    }
    for i in 0..chains.len() {
        for j in i + 1..chains.len() {
            assert_ne!(chains[i].endpoint, chains[j].endpoint);
        }
    }
    // filtration only removes chains that would have merged
    let unfiltered = SimpleTable::new(ctx.duplicate(), vec![]).unwrap();
    let mut a: Vec<u64> = chains.iter().map(|c| c.endpoint).collect();
    let mut b: Vec<u64> = unfiltered.chains().iter().map(|c| c.endpoint).collect();
    a.sort();
    b.sort();
    assert_eq!(a, b);
}

#[test]
fn search_returns_only_preimages() {
    let ctx = RainbowTableCtxBuilder::new()
        .charset(b"abc")
        .max_password_length(4)
        .chain_length(20)
        .build()
        .unwrap();
    let table = SimpleTable::new(ctx.duplicate(), vec![]).unwrap();
    let mut found = 0;
    for i in 0..ctx.n {
        let password = counter_to_plaintext(i, &ctx);
        let digest = ctx.hash_function.hash(&password);
        if let Some(p) = search(&table, &digest) {
            assert_eq!(digest, ctx.hash_function.hash(&p));
            found += 1;
        }
    }
    assert!(found > 0);
    // a digest of the wrong size is never found
    assert_eq!(None, search(&table, &vec![0u8; 8]));
}

/// Searches the four-table cluster of spec'd size (t = 100, L = 4,
/// charset "abcdef", table numbers 0 to 3) for the digest of every password
/// whose counter is `slice` modulo `SLICES`; returns the misses and the tries.
const SLICES: u64 = 12;

fn cluster_misses(slice: u64) -> (u64, u64) {
    let mut tables = Vec::new();
    for tn in 0..4 {
        let ctx = RainbowTableCtxBuilder::new()
            .chain_length(100)
            .max_password_length(4)
            .charset(b"abcdef")
            .table_number(tn)
            .build()
            .unwrap();
        tables.push(SimpleTable::new(ctx, vec![]).unwrap());
    }
    let ctx = tables[0].ctx();
    let cluster = ClusterTable::new(&tables);
    let mut missed = 0;
    let mut tried = 0;
    let mut i = slice;
    while i < ctx.n {
        let password = counter_to_plaintext(i, &ctx);
        let digest = ctx.hash_function.hash(&password);
        match cluster.search(&digest) {
            Some(p) => assert_eq!(password, p),
            None => missed += 1,
        }
        tried += 1;
        i += SLICES;
    }
    (missed, tried)
}

// Together the slices query every password of the space (1555 of them);
// at most one miss per slice is at most 12 misses, a success rate above 99%.
#[test]
fn cluster_coverage_0() {
    let (missed, tried) = cluster_misses(0);
    assert!(tried >= 129);
    assert!(missed <= 1, "missed {missed} of {tried}");
}

#[test]
fn cluster_coverage_1() {
    let (missed, tried) = cluster_misses(1);
    assert!(tried >= 129);
    assert!(missed <= 1, "missed {missed} of {tried}");
}

#[test]
fn cluster_coverage_2() {
    let (missed, tried) = cluster_misses(2);
    assert!(tried >= 129);
    assert!(missed <= 1, "missed {missed} of {tried}");
}

#[test]
fn cluster_coverage_3() {
    let (missed, tried) = cluster_misses(3);
    assert!(tried >= 129);
    assert!(missed <= 1, "missed {missed} of {tried}");
}

#[test]
fn cluster_coverage_4() {
    let (missed, tried) = cluster_misses(4);
    assert!(tried >= 129);
    assert!(missed <= 1, "missed {missed} of {tried}");
}

#[test]
fn cluster_coverage_5() {
    let (missed, tried) = cluster_misses(5);
    assert!(tried >= 129);
    assert!(missed <= 1, "missed {missed} of {tried}");
}

#[test]
fn cluster_coverage_6() {
    let (missed, tried) = cluster_misses(6);
    assert!(tried >= 129);
    assert!(missed <= 1, "missed {missed} of {tried}");
}

#[test]
fn cluster_coverage_7() {
    let (missed, tried) = cluster_misses(7);
    assert!(tried >= 129);
    assert!(missed <= 1, "missed {missed} of {tried}");
}

#[test]
fn cluster_coverage_8() {
    let (missed, tried) = cluster_misses(8);
    assert!(tried >= 129);
    assert!(missed <= 1, "missed {missed} of {tried}");
}

#[test]
fn cluster_coverage_9() {
    let (missed, tried) = cluster_misses(9);
    assert!(tried >= 129);
    assert!(missed <= 1, "missed {missed} of {tried}");
}

#[test]
fn cluster_coverage_10() {
    let (missed, tried) = cluster_misses(10);
    assert!(tried >= 129);
    assert!(missed <= 1, "missed {missed} of {tried}");
}

#[test]
fn cluster_coverage_11() {
    let (missed, tried) = cluster_misses(11);
    assert!(tried >= 129);
    assert!(missed <= 1, "missed {missed} of {tried}");
}

#[test]
fn generation_reports_unique_chains_per_segment() {
    let ctx = RainbowTableCtxBuilder::new()
        .charset(b"abcd")
        .max_password_length(3)
        .chain_length(30)
        .startpoints(Some(60))
        .build()
        .unwrap();
    let map = RainbowChainMap::new(ctx.m0).unwrap();
    let mut steps = Vec::new();
    let table = SimpleTable::generate(map, ctx.duplicate(), vec![5, 10, 20], &mut steps);
    assert_eq!(4, steps.len());
    assert!(steps[0] <= 60);
    for w in steps.windows(2) {
        assert!(w[1] <= w[0]);
    }
    assert_eq!(table.len() as u64, *steps.last().unwrap());
}

#[test]
fn from_chains_fills_the_given_map() {
    let ctx = RainbowTableCtxBuilder::new().charset(b"abc").build().unwrap();
    let map = RainbowChainMap::new(3).unwrap();
    let chains = vec![
        RainbowChain::from_compressed(1, 100),
        RainbowChain::from_compressed(2, 200),
        RainbowChain::from_compressed(3, 100),
    ];
    let table = SimpleTable::from_chains(map, chains, ctx);
    assert_eq!(2, table.len());
    assert_eq!(Some(1), table.search_endpoints(100));
}
