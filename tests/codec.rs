use cugparck::codec::{ascii_to_charset, counter_to_plaintext, plaintext_to_counter, reduce};
use cugparck::ctx::{default_charset, RainbowTableCtx, RainbowTableCtxBuilder};
use cugparck::error::CugparckError;
use cugparck::hash::HashFunction;

fn build_test_ctx() -> RainbowTableCtx {
    RainbowTableCtxBuilder::new()
        .hash(HashFunction::Md4)
        .charset(b"abc")
        .build()
        .unwrap()
}

fn expected_plaintexts() -> Vec<Vec<u8>> {
    vec![
        b"".to_vec(),
        b"a".to_vec(),
        b"b".to_vec(),
        b"c".to_vec(),
        b"aa".to_vec(),
        b"ba".to_vec(),
        b"ca".to_vec(),
        b"ab".to_vec(),
        b"bb".to_vec(),
        b"cb".to_vec(),
        b"ac".to_vec(),
        b"bc".to_vec(),
        b"cc".to_vec(),
        b"aaa".to_vec(),
    ]
}

#[test]
fn lib_test_ascii_to_charset() {
    let charset = default_charset();
    assert_eq!(9, ascii_to_charset(b'9', &charset));
    assert_eq!(63, ascii_to_charset(b'_', &charset));
}

#[test]
fn cpu_test_ascii_to_charset() {
    let charset = default_charset();
    assert_eq!(9, ascii_to_charset(b'9', &charset));
    assert_eq!(63, ascii_to_charset(b'_', &charset));
}

#[test]
fn lib_test_counter_to_plaintext() {
    let ctx = build_test_ctx();
    let plaintexts: Vec<Vec<u8>> = (0..14).map(|i| counter_to_plaintext(i, &ctx)).collect();
    assert_eq!(expected_plaintexts(), plaintexts);
}

#[test]
fn cpu_test_counter_to_plaintext() {
    let ctx = build_test_ctx();
    let plaintexts: Vec<Vec<u8>> = (0..14).map(|i| counter_to_plaintext(i, &ctx)).collect();
    assert_eq!(expected_plaintexts(), plaintexts);
}

#[test]
fn lib_test_plaintext_to_counter() {
    let ctx = build_test_ctx();
    let counters: Vec<u64> = expected_plaintexts()
        .into_iter()
        .map(|p| plaintext_to_counter(p, &ctx))
        .collect();
    assert_eq!((0..14).collect::<Vec<u64>>(), counters);
}

#[test]
fn cpu_test_plaintext_to_counter() {
    let ctx = build_test_ctx();
    let counters: Vec<u64> = expected_plaintexts()
        .into_iter()
        .map(|p| plaintext_to_counter(p, &ctx))
        .collect();
    assert_eq!((0..14).collect::<Vec<u64>>(), counters);
}

#[test]
fn search_spaces_of_a_small_charset() {
    let ctx = RainbowTableCtxBuilder::new()
        .charset(b"abc")
        .max_password_length(3)
        .build()
        .unwrap();
    assert_eq!(vec![0, 1, 4, 13], ctx.search_spaces);
    assert_eq!(40, ctx.n);
}

#[test]
fn counters_round_trip_over_the_whole_space() {
    let ctx = RainbowTableCtxBuilder::new()
        .charset(b"cab")
        .max_password_length(4)
        .build()
        .unwrap();
    assert_eq!(b"abc".to_vec(), ctx.charset);
    for c in 0..ctx.n {
        let p = counter_to_plaintext(c, &ctx);
        assert!(p.len() <= 4);
        assert_eq!(c, plaintext_to_counter(p, &ctx));
    }
}

#[test]
fn passwords_round_trip() {
    let ctx = RainbowTableCtxBuilder::new()
        .charset(b"xyz01")
        .max_password_length(5)
        .build()
        .unwrap();
    for p in [b"".to_vec(), b"x".to_vec(), b"z0".to_vec(), b"10zyx".to_vec(), b"11111".to_vec()] {
        let c = plaintext_to_counter(p.clone(), &ctx);
        assert!(c < ctx.n);
        assert_eq!(p, counter_to_plaintext(c, &ctx));
    }
}

#[test]
fn reduce_multiplies_the_table_number() {
    // 63 characters and passwords of at most one character: a space of 64
    let charset: Vec<u8> = (b'A'..=b'Z').chain(b'a'..=b'z').chain(b'0'..=b'9').chain([b'_']).collect();
    assert_eq!(63, charset.len());
    let ctx = RainbowTableCtxBuilder::new()
        .charset(&charset)
        .max_password_length(1)
        .table_number(8)
        .build()
        .unwrap();
    assert_eq!(64, ctx.n);
    assert_eq!(9, ctx.tn);
    let mut digest = vec![0u8; 16];
    digest[0] = 1;
    assert_eq!(28, reduce(&digest, 3, &ctx));
}

#[test]
fn reduce_wraps_before_the_modulus() {
    let ctx = RainbowTableCtxBuilder::new()
        .charset(b"ab")
        .max_password_length(2)
        .build()
        .unwrap();
    assert_eq!(7, ctx.n);
    let digest = vec![0xffu8; 16];
    // (2^64 - 1 + 2) mod 2^64 = 1
    assert_eq!(1, reduce(&digest, 2, &ctx));
}

#[test]
fn build_rejects_long_passwords() {
    let r = RainbowTableCtxBuilder::new().max_password_length(28).build();
    assert_eq!(Err(CugparckError::MaxPasswordLengthExceeded(27)), r.map(|_| ()));
}

#[test]
fn build_rejects_bad_charsets() {
    let r = RainbowTableCtxBuilder::new().charset(&[b'a', 200]).build();
    assert_eq!(Err(CugparckError::Charset), r.map(|_| ()));
    let r = RainbowTableCtxBuilder::new().charset(b"aaaa").build();
    assert_eq!(Err(CugparckError::Charset), r.map(|_| ()));
}

#[test]
fn build_dedups_the_charset() {
    let ctx = RainbowTableCtxBuilder::new().charset(b"abca").build().unwrap();
    assert_eq!(b"abc".to_vec(), ctx.charset);
}

#[test]
fn build_rejects_short_chains() {
    let r = RainbowTableCtxBuilder::new().chain_length(1).build();
    assert_eq!(Err(CugparckError::InvalidParameter), r.map(|_| ()));
}

#[test]
fn build_rejects_spaces_over_64_bits() {
    let r = RainbowTableCtxBuilder::new().max_password_length(11).build();
    assert_eq!(Err(CugparckError::Space(67)), r.map(|_| ()));
    let r = RainbowTableCtxBuilder::new().max_password_length(27).build();
    assert_eq!(Err(CugparckError::Space(128)), r.map(|_| ()));
}

#[test]
fn build_derives_startpoints_from_alpha() {
    let ctx = RainbowTableCtxBuilder::new().charset(b"abc").build().unwrap();
    assert_eq!(1093, ctx.n);
    // 0.952 / 0.048 * 2 * 1093 / 10002
    assert_eq!(4, ctx.m0);
    let ctx = RainbowTableCtxBuilder::new().charset(b"abc").alpha(1_000_000).build().unwrap();
    assert_eq!(1093, ctx.m0);
    let ctx = RainbowTableCtxBuilder::new().charset(b"abc").startpoints(Some(5000)).build().unwrap();
    assert_eq!(1093, ctx.m0);
    let ctx = RainbowTableCtxBuilder::new().charset(b"abc").startpoints(Some(0)).build().unwrap();
    assert_eq!(1, ctx.m0);
}

#[test]
fn compute_test_ascii_to_charset() {
    let charset = default_charset();
    let output: Vec<u8> = b"9_".iter().map(|&c| ascii_to_charset(c, &charset)).collect();
    assert_eq!(&[9, 63], output.as_slice());
}

#[test]
fn compute_test_counter_to_plaintext() {
    let ctx = build_test_ctx();
    let expected_outputs: &[&[u8]] = &[
        b"", b"a", b"b", b"c", b"aa", b"ba", b"ca", b"ab", b"bb", b"cb", b"ac", b"bc", b"cc", b"aaa",
    ];
    for (i, expected_output) in expected_outputs.iter().enumerate() {
        let actual_output = counter_to_plaintext(i as u64, &ctx);
        assert!(actual_output.len() <= 10);
        assert_eq!(expected_output, &actual_output.as_slice());
    }
}

#[test]
fn default_charset_is_sixty_four_characters() {
    let charset = default_charset();
    assert_eq!(b"0123456789ABCDEFGHIJKLMNOPQRSTUVWXYZabcdefghijklmnopqrstuvwxyz-_".to_vec(), charset);
}
