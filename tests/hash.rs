use cugparck::hash::{utf16_le, HashFunction};
use cugparck::kernel::{md4, md4_f, md4_g, md4_h, ntlm, rotate_left};

const MESSAGE_DIGEST_MD4: [u8; 16] = [
    0xd9, 0x13, 0x0a, 0x81, 0x64, 0x54, 0x9f, 0xe8, 0x18, 0x87, 0x48, 0x06, 0xe1, 0xc7, 0x01, 0x4b,
];

const PASSWORD_NTLM: [u8; 16] = [
    0x88, 0x46, 0xF7, 0xEA, 0xEE, 0x8F, 0xB1, 0x17, 0xAD, 0x06, 0xBD, 0xD8, 0x30, 0xB7, 0x58, 0x6C,
];

const ABC_NTLM: [u8; 16] = [
    0xE0, 0xFB, 0xA3, 0x82, 0x68, 0xD0, 0xEC, 0x66, 0xEF, 0x1C, 0xB4, 0x52, 0xD5, 0x88, 0x5E, 0x53,
];

#[test]
fn md4_test_md4() {
    let digest = md4(b"message digest");
    assert_eq!(16, digest.len());
    assert_eq!(MESSAGE_DIGEST_MD4.as_slice(), digest.as_slice());
}

#[test]
fn ntlm_test_md4() {
    let digest = md4(b"message digest");
    assert_eq!(MESSAGE_DIGEST_MD4.as_slice(), digest.as_slice());
}

#[test]
fn test_ntlm() {
    assert_eq!(PASSWORD_NTLM.as_slice(), ntlm(b"password").as_slice());
    assert_eq!(ABC_NTLM.as_slice(), ntlm(b"abc").as_slice());
}

#[test]
fn test_ntlm_cpu() {
    assert_eq!(PASSWORD_NTLM.to_vec(), HashFunction::Ntlm.hash(b"password"));
    assert_eq!(ABC_NTLM.to_vec(), HashFunction::Ntlm.hash(b"abc"));
}

#[test]
fn md4_of_the_crate_and_of_the_kernel_agree() {
    assert_eq!(MESSAGE_DIGEST_MD4.to_vec(), HashFunction::Md4.hash(b"message digest"));
    for p in [b"".as_slice(), b"a", b"abc", b"0123456789abcdefghijklmnopqrstuvwxyz0123456789abcdefgh"] {
        assert_eq!(HashFunction::Md4.hash(p), md4(p));
    }
    assert_eq!(hex::encode(md4(b"")), "31d6cfe0d16ae931b73c59d7e0c089c0");
}

#[test]
fn utf16_le_interleaves_zeros() {
    assert_eq!(vec![b'a', 0, b'b', 0], utf16_le(b"ab"));
    assert!(utf16_le(b"").is_empty());
}

#[test]
fn md4_round_functions() {
    assert_eq!(0xfedcba98, md4_f(0xffff0000, 0xfedc0000, 0x0000ba98));
    assert_eq!(0b1110_1000, md4_g(0b1100_1100, 0b1010_1010, 0b1111_0000) & 0xff);
    assert_eq!(0b0101_0110, md4_h(0b1100_1100, 0b1010_1010, 0b0011_0000));
    assert_eq!(0x0000_0003, rotate_left(0x8000_0001, 1));
}

#[test]
fn digests_of_abc() {
    let cases = [
        (HashFunction::Md5, "900150983cd24fb0d6963f7d28e17f72"),
        (HashFunction::Sha1, "a9993e364706816aba3e25717850c26c9cd0d89d"),
        (HashFunction::Sha2_224, "23097d223405d8228642a477bda255b32aadbce4bda0b3f7e36c9da7"),
        (HashFunction::Sha2_256, "ba7816bf8f01cfea414140de5dae2223b00361a396177a9cb410ff61f20015ad"),
        (
            HashFunction::Sha2_384,
            "cb00753f45a35e8bb5a03d699ac65007272c32ab0eded1631a8b605a43ff5bed8086072ba1e7cc2358baeca134c825a7",
        ),
        (
            HashFunction::Sha2_512,
            "ddaf35a193617abacc417349ae20413112e6fa4e89a97ea20a9eeee64b55d39a2192992a274fc1a836ba3c23a3feebbd454d4423643ce80e2a9ac94fa54ca49f",
        ),
        (HashFunction::Sha3_224, "e642824c3f8cf24ad09234ee7d3c766fc9a3a5168d0c94ad73b46fdf"),
        (HashFunction::Sha3_256, "3a985da74fe225b2045c172d6bd390bd855f086e3e9d525b46bfe24511431532"),
        (
            HashFunction::Sha3_384,
            "ec01498288516fc926459f58e2c6ad8df9b473cb0fc08c2596da7cf0e49be4b298d88cea927ac7f539f1edf228376d25",
        ),
        (
            HashFunction::Sha3_512,
            "b751850b1a57168a5693cd924b6b096e08f621827444f70d884f5d0240d2712e10e116e9192af3c91a7ec57647e3934057340b4cf408d5a56592f8274eec53f0",
        ),
    ];
    for (h, expected) in cases {
        let digest = h.hash(b"abc");
        assert_eq!(h.digest_size(), digest.len());
        assert_eq!(expected, hex::encode(digest));
    }
}
