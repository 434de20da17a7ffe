use cugparck::bits::{bits_new, bits_push, push_bits, rice_decode, rice_encode, Bits};
use cugparck::chain_map::RainbowChain;
use cugparck::compressed::{bits_to_vec, CompressedTable, Index, BLOCK_SIZE};
use cugparck::ctx::{RainbowTableCtx, RainbowTableCtxBuilder};
use cugparck::search::search;
use cugparck::table::{RainbowTable, SimpleTable};

/// k_opt, the Rice parameter that is optimal for `m` endpoints among `n`.
fn optimal_rice_parameter(n: f64, m: f64) -> u8 {
    let golden_ratio_log = ((1. + 5f64.sqrt()) / 2. - 1.).log10();
    let space_log = ((n - m) / (n + 1.)).log10();
    let k = 1. + ((golden_ratio_log / space_log).log2());
    (k as u8).max(1)
}

/// R_{k_opt}, the rate of that parameter.
fn optimal_rice_parameter_rate(n: f64, m: f64, k: u8) -> f64 {
    let frac = ((n - m) / (n + 1.)).powi(1 << k);
    k as f64 + 1. / (1. - frac)
}

fn bits_from(v: &[u8]) -> Bits {
    let mut bits = bits_new();
    for &b in v {
        bits_push(&mut bits, b == 1);
    }
    bits
}

fn compress(chains: Vec<RainbowChain>, ctx: RainbowTableCtx) -> CompressedTable {
    let k = optimal_rice_parameter(ctx.n as f64, chains.len() as f64);
    let simple = SimpleTable::from_vec(chains, ctx).unwrap();
    CompressedTable::from_rainbow_table(&simple, k).unwrap()
}

/// Chains like (startpoint, endpoint = startpoint * 7); n = 5461, m0 = m = 513.
fn build_table() -> (CompressedTable, Vec<RainbowChain>) {
    let ctx = RainbowTableCtxBuilder::new()
        .startpoints(Some(BLOCK_SIZE as u64 * 2 + 1))
        .charset(b"abcd")
        .build()
        .unwrap();
    let chains: Vec<RainbowChain> = (0..BLOCK_SIZE * 2 + 1)
        .map(|i| RainbowChain::from_compressed(i as u64, (i * 7) as u64))
        .collect();
    (compress(chains.clone(), ctx), chains)
}

#[test]
fn test_rice_encode() {
    let mut output = bits_new();
    rice_encode(7, 1, &mut output);
    rice_encode(6, 2, &mut output);
    rice_encode(17, 4, &mut output);
    let expected: Vec<bool> = [1, 1, 1, 0, 1, 1, 0, 0, 1, 1, 0, 1, 0, 0, 0].iter().map(|&b| b == 1).collect();
    assert_eq!(expected, bits_to_vec(&output));
}

#[test]
fn test_rice_decode() {
    assert_eq!(Some((7, 5)), rice_decode(1, &bits_from(&[1, 1, 1, 0, 1]), 0));
    assert_eq!(Some((6, 4)), rice_decode(2, &bits_from(&[1, 0, 0, 1]), 0));
    assert_eq!(Some((17, 6)), rice_decode(4, &bits_from(&[1, 0, 1, 0, 0, 0]), 0));
}

#[test]
fn rice_codes_round_trip() {
    for k in 1..8u8 {
        let mut bits = bits_new();
        push_bits(&mut bits, 0b101, 3);
        let values = [0u64, 1, 2, 3, 100, 1000, 12345];
        for &x in &values {
            rice_encode(x, k, &mut bits);
        }
        let mut pos = 3;
        for &x in &values {
            let (y, next) = rice_decode(k, &bits, pos).unwrap();
            assert_eq!(x, y);
            pos = next;
        }
        assert_eq!(None, rice_decode(k, &bits, pos));
    }
}

#[test]
fn test_optimal_rice_parameter() {
    assert_eq!(3, optimal_rice_parameter(2f64.powi(20), 2f64.powi(16)));
    assert_eq!(11, optimal_rice_parameter(2f64.powi(20), 300.));
}

#[test]
fn test_optimal_rice_parameter_rate() {
    let n = 2f64.powi(20);
    let m = 2f64.powi(16);
    let k = 3;
    assert_eq!(19, (optimal_rice_parameter_rate(n, m, k) * m).log2().ceil() as usize)
}

#[test]
fn test_index() {
    let n = 2f64.powi(20);
    let m = 2f64.powi(16);
    let k = 3;
    let bit_address_size = (optimal_rice_parameter_rate(n, m, k) * m).log2().ceil() as usize;
    let chain_number_size = m.log2().ceil().max(1.) as usize;

    let mut index = Index::new(bit_address_size, chain_number_size);

    // each entry in the index should be 35 bits long
    index.add_entry(0, 0);
    index.add_entry(1000, 50);
    index.add_entry(2000, 100);

    assert_eq!(35 * 3, index.bits().len());

    // we should be able to get all entries back
    assert_eq!((0, 0), index.get_entry(0).unwrap());
    assert_eq!((1000, 50), index.get_entry(1).unwrap());
    assert_eq!((2000, 100), index.get_entry(2).unwrap());
    assert_eq!(None, index.get_entry(3));
}

#[test]
fn test_startpoints() {
    let ctx = RainbowTableCtxBuilder::new().charset(b"abc").startpoints(Some(5)).build().unwrap();

    let chains = vec![
        RainbowChain::new(b"c".to_vec(), b"aaa".to_vec(), &ctx),
        RainbowChain::new(b"".to_vec(), b"caa".to_vec(), &ctx),
        RainbowChain::new(b"aa".to_vec(), b"aab".to_vec(), &ctx),
        RainbowChain::new(b"b".to_vec(), b"ccb".to_vec(), &ctx),
        RainbowChain::new(b"a".to_vec(), b"ccc".to_vec(), &ctx),
    ];

    let table = compress(chains, ctx);

    // "c" = 110, "" = 000, "aa" = 001, "b" = 010, "a" = 100 (least significant bit first)
    let expected: Vec<bool> = [1, 1, 0, 0, 0, 0, 0, 0, 1, 0, 1, 0, 1, 0, 0].iter().map(|&b| b == 1).collect();
    assert_eq!(expected, table.startpoint_bits())
}

#[test]
fn test_endpoints() {
    let ctx = RainbowTableCtxBuilder::new().charset(b"abc").build().unwrap();

    let chains = vec![
        RainbowChain::new(b"c".to_vec(), b"".to_vec(), &ctx),
        RainbowChain::new(b"".to_vec(), b"a".to_vec(), &ctx),
        RainbowChain::new(b"aa".to_vec(), b"aa".to_vec(), &ctx),
        RainbowChain::new(b"b".to_vec(), b"cc".to_vec(), &ctx),
        RainbowChain::new(b"a".to_vec(), b"baa".to_vec(), &ctx),
    ];

    let table = compress(chains, ctx);
    assert_eq!(7, table.rice_parameter());

    // gaps 0, 0, 2, 7, 1, Rice-coded with k = 7
    let expected: Vec<bool> = [
        0, 0, 0, 0, 0, 0, 0, 0, 0, 0, 0, 0, 0, 0, 0, 0, 0, 0, 1, 0, 0, 0, 0, 0, 0, 1, 1, 1, 0, 0,
        0, 0, 0, 1, 0, 0, 0, 0, 0, 0,
    ]
    .iter()
    .map(|&b| b == 1)
    .collect();
    assert_eq!(expected, table.endpoint_bits());
}

#[test]
fn test_block() {
    let (table, _) = build_table();

    // l = ceil(513 / 256) = 3, and one more block for the rounding
    assert!(table.block_entry(3).is_some());
    assert!(table.block_entry(4).is_none());

    // block 1 holds the endpoints e with e * 3 / 5461 == 1, from 1821 on;
    // the first of them is 1827 = 7 * 261
    let (bit_address, chain_number) = table.block_entry(1).unwrap();
    assert_eq!(261, chain_number);

    let bits = bits_from(&table.endpoint_bits().iter().map(|&b| b as u8).collect::<Vec<u8>>());
    let (diff, rest) = rice_decode(table.rice_parameter(), &bits, bit_address as usize).unwrap();
    // the first gap of a block is from the block's start: 1827 - 1821
    assert_eq!(6, diff);
    let (diff, _) = rice_decode(table.rice_parameter(), &bits, rest).unwrap();
    // the following gaps are 7 - 1
    assert_eq!(6, diff);
}

#[test]
fn test_iterator() {
    let (table, chains) = build_table();

    let chains_found = table.chains();
    assert_eq!(chains, chains_found);

    let endpoints_from_second_block = table.endpoints_from_block(1);
    assert_eq!(
        chains[261..].iter().map(|chain| chain.endpoint).collect::<Vec<u64>>(),
        endpoints_from_second_block
    );
}

#[test]
fn test_search_endpoints() {
    let (table, _) = build_table();

    // take an arbitrary endpoint and try to find the chain number again
    const CHAIN_NUMBER: usize = 420;
    let chain = table.chains()[CHAIN_NUMBER];

    let search = table.search_endpoints(chain.endpoint);
    assert_eq!(Some(chain.startpoint), search);
    assert_eq!(None, table.search_endpoints(chain.endpoint + 1));
}

#[test]
fn compress_then_decompress_keeps_the_chains() {
    let ctx = RainbowTableCtxBuilder::new()
        .charset(b"abc")
        .max_password_length(4)
        .chain_length(20)
        .build()
        .unwrap();
    let simple = SimpleTable::new(ctx.duplicate(), vec![]).unwrap();
    let mut before = simple.chains();
    let k = optimal_rice_parameter(ctx.n as f64, before.len() as f64);
    let compressed = CompressedTable::from_rainbow_table(&simple, k).unwrap();
    assert_eq!(before.len(), compressed.len());
    let back = compressed.to_simple().unwrap();
    let mut after = back.chains();
    before.sort_by_key(|c| c.endpoint);
    after.sort_by_key(|c| c.endpoint);
    assert_eq!(before, after);
    assert_eq!(ctx.n, back.ctx().n);
    assert_eq!(ctx.charset, back.ctx().charset);
}

#[test]
fn test_search() {
    let ctx = RainbowTableCtxBuilder::new()
        .chain_length(100)
        .max_password_length(4)
        .charset(b"abc")
        .build()
        .unwrap();
    let simple = SimpleTable::new(ctx.duplicate(), vec![]).unwrap();
    let k = optimal_rice_parameter(ctx.n as f64, simple.len() as f64);
    let table = CompressedTable::from_rainbow_table(&simple, k).unwrap();

    let search_for = b"abca".to_vec();
    let digest = ctx.hash_function.hash(&search_for);
    let found = search(&table, &digest);
    assert_eq!(search(&simple, &digest), found);
    if let Some(p) = found {
        assert_eq!(search_for, p);
    }
}

#[test]
fn compressed_and_simple_searches_agree() {
    let ctx = RainbowTableCtxBuilder::new()
        .charset(b"abcd")
        .max_password_length(3)
        .chain_length(12)
        .build()
        .unwrap();
    let simple = SimpleTable::new(ctx.duplicate(), vec![4, 8]).unwrap();
    let k = optimal_rice_parameter(ctx.n as f64, simple.len() as f64);
    let compressed = CompressedTable::from_rainbow_table(&simple, k).unwrap();
    for c in simple.chains() {
        assert_eq!(Some(c.startpoint), compressed.search_endpoints(c.endpoint));
    }
    for i in 0..ctx.n {
        let password = cugparck::codec::counter_to_plaintext(i, &ctx);
        let digest = ctx.hash_function.hash(&password);
        assert_eq!(search(&simple, &digest), search(&compressed, &digest));
    }
}

#[test]
fn stored_parts_restore_the_same_table() {
    let (table, chains) = build_table();
    let parts = table.to_parts();
    let ctx = table.ctx();
    let restored = CompressedTable::from_parts(ctx, &parts).unwrap();
    assert_eq!(chains, restored.chains());
    assert_eq!(table.endpoint_bits(), restored.endpoint_bits());
    assert_eq!(table.startpoint_bits(), restored.startpoint_bits());
}

#[test]
fn corrupt_parts_are_refused() {
    let (table, _) = build_table();
    let mut parts = table.to_parts();
    let len = parts.endpoints.len();
    parts.endpoints.truncate(len - 5);
    let r = CompressedTable::from_parts(table.ctx(), &parts);
    assert!(matches!(r, Err(cugparck::error::CugparckError::Corrupt)));

    let mut parts = table.to_parts();
    parts.m += 1;
    let r = CompressedTable::from_parts(table.ctx(), &parts);
    assert!(matches!(r, Err(cugparck::error::CugparckError::Corrupt)));

    let mut parts = table.to_parts();
    parts.index.pop();
    let r = CompressedTable::from_parts(table.ctx(), &parts);
    assert!(matches!(r, Err(cugparck::error::CugparckError::Corrupt)));
}
