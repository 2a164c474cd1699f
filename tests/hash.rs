use minigit::error::GitError;

const VALID_HASH: &str = "0123456789012345678901234567890123456789";
const SHORT_HASH: &str = "012345678901234567890123456789012345678";

#[test]
fn test_hash_from_str() {
    let hash = minigit::hash::Hash::from_str(VALID_HASH).unwrap();

    assert_eq!(hash.to_string(), VALID_HASH);
}

#[test]
fn test_hash_from_str_short() {
    let hash = minigit::hash::Hash::from_str(SHORT_HASH);

    assert!(hash.is_err());
}

#[test]
fn test_hash_directory() {
    let hash = minigit::hash::Hash::from_str(VALID_HASH).unwrap();

    assert_eq!(hash.directory(), "01");
}

#[test]
fn test_hash_file() {
    let hash = minigit::hash::Hash::from_str(VALID_HASH).unwrap();

    assert_eq!(hash.file(), "23456789012345678901234567890123456789");
}

#[test]
fn hash_rejects_uppercase_and_non_hex() {
    let upper = "0123456789ABCDEF012345678901234567890123";
    assert_eq!(minigit::hash::Hash::from_str(upper), Err(GitError::InvalidHash));
    let bad = "0123456789xyz012345678901234567890123456";
    assert_eq!(minigit::hash::Hash::new(bad), Err(GitError::InvalidHash));
}

#[test]
fn hash_raw_round_trip() {
    let hash = minigit::hash::Hash::from_str(VALID_HASH).unwrap();
    let raw = hash.to_raw();
    assert_eq!(raw.len(), 20);
    assert_eq!(raw[0], 0x01);
    assert_eq!(raw[1], 0x23);
    let back = minigit::hash::Hash::from_raw(&raw).unwrap();
    assert_eq!(back, hash);
    assert_eq!(minigit::hash::Hash::from_raw(&raw[..19]), Err(GitError::InvalidHash));
}

#[test]
fn hex_helpers() {
    assert_eq!(minigit::hash::bytes_to_hex(&[0x00, 0xab, 0x7f]), "00ab7f");
    assert_eq!(minigit::hash::hex_to_bytes("00aB7f").unwrap(), vec![0x00, 0xab, 0x7f]);
    assert_eq!(minigit::hash::hex_to_bytes("abc"), Err(GitError::InvalidHash));
    assert_eq!(minigit::hash::hex_to_bytes("zz"), Err(GitError::InvalidHash));
    let fixed: [u8; 2] = minigit::hash::hex_to_fixed_bytes::<2>("beef").unwrap();
    assert_eq!(fixed, [0xbe, 0xef]);
    assert!(minigit::hash::hex_to_fixed_bytes::<3>("beef").is_err());
}

#[test]
fn blob_hashing_matches_git() {
    let hash = minigit::hash::Hash::hash("blob 6\0hello\n");
    assert_eq!(hash.to_string(), "ce013625030ba8dba906f756967f9e9ca394464a");
    let same = minigit::hash::Hash::hash_bytes(b"blob 6\0hello\n");
    assert_eq!(same, hash);
}

#[test]
fn object_path_splits_the_hex() {
    let hash = minigit::hash::Hash::from_str("ce013625030ba8dba906f756967f9e9ca394464a").unwrap();
    assert_eq!(hash.object_path(), "objects/ce/013625030ba8dba906f756967f9e9ca394464a");
    let joined = format!("{}{}", hash.directory(), hash.file());
    assert_eq!(minigit::hash::Hash::from_str(&joined).unwrap(), hash);
}
