use dupscan::hexfmt::bytes_to_hex;
use dupscan::scan::{dir_hash, file_hash, symlink_hash};

const SALT_DIR: &[u8] = b"6aIecn4M7VoB";
const SALT_SYMLINK: &[u8] = b"RXqENRdyGIpE";

#[test]
fn hex_rendering_is_exact() {
    assert_eq!(bytes_to_hex(&vec![0x00, 0xAB, 0xFF, 0x09]), "00ABFF09");
    assert_eq!(bytes_to_hex(&Vec::new()), "");
}

#[test]
fn file_digest_matches_known_vector() {
    // the published SHA-256 digest of "abc"
    let fp = file_hash(&b"abc".to_vec());
    assert_eq!(
        bytes_to_hex(&fp),
        "BA7816BF8F01CFEA414140DE5DAE2223B00361A396177A9CB410FF61F20015AD"
    );
    assert_eq!(fp.len(), 32);
}

#[test]
fn symlink_digest_is_salted_target() {
    let fp = symlink_hash(&b"target".to_vec()).unwrap();
    let mut salted = SALT_SYMLINK.to_vec();
    salted.extend_from_slice(b"target");
    assert_eq!(fp, file_hash(&salted));
    // and the salt really enters: the bare target hashes differently
    assert_ne!(fp, file_hash(&b"target".to_vec()));
}

#[test]
fn empty_dir_digest_is_hashed_salt() {
    let fp = dir_hash(Vec::new()).unwrap();
    assert_eq!(fp, file_hash(&SALT_DIR.to_vec()));
}

#[test]
fn dir_digest_formula_single_child() {
    let child_fp = file_hash(&b"x".to_vec());
    let fp = dir_hash(vec![(b"a".to_vec(), child_fp.clone())]).unwrap();
    let mut input = SALT_DIR.to_vec();
    input.extend_from_slice(b"a");
    input.extend_from_slice(&child_fp);
    assert_eq!(fp, file_hash(&input));
}

#[test]
fn dir_digest_sorts_by_name() {
    let fx = file_hash(&b"x".to_vec());
    let fy = file_hash(&b"y".to_vec());
    let sorted = dir_hash(vec![(b"a".to_vec(), fx.clone()), (b"b".to_vec(), fy.clone())]).unwrap();
    let shuffled = dir_hash(vec![(b"b".to_vec(), fy.clone()), (b"a".to_vec(), fx.clone())])
        .unwrap();
    assert_eq!(sorted, shuffled);
    let mut input = SALT_DIR.to_vec();
    input.extend_from_slice(b"a");
    input.extend_from_slice(&fx);
    input.extend_from_slice(b"b");
    input.extend_from_slice(&fy);
    assert_eq!(sorted, file_hash(&input));
}
