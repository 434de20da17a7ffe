use cugparck::sam::{derive_des_key, permute};

#[test]
fn test_derive_des_key() {
    let source_1 = [0xf4, 0x01, 0x00, 0x00, 0xf4, 0x01, 0x00];
    let expected_des_key_1 = [0xf4, 0x01, 0x40, 0x01, 0x0e, 0xa1, 0x04, 0x01];

    let actual_des_key_1 = derive_des_key(&source_1);
    assert_eq!(expected_des_key_1.as_slice(), actual_des_key_1.as_slice());

    let source_2 = [0x00, 0xf4, 0x01, 0x00, 0x00, 0xf4, 0x01];
    let expected_des_key_2 = [0x01, 0x7a, 0x01, 0x20, 0x01, 0x07, 0xd0, 0x02];

    let actual_des_key_2 = derive_des_key(&source_2);
    assert_eq!(expected_des_key_2.as_slice(), actual_des_key_2.as_slice());
}

#[test]
fn permute_picks_positions() {
    assert_eq!(vec![30, 10, 10], permute(&[10, 20, 30], &[2, 0, 0]));
    assert!(permute(&[1, 2], &[]).is_empty());
}
