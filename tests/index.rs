use minigit::error::GitError;
use minigit::index::{Index, IndexEntry};
use minigit::mode::{BlobType, Mode};

const H1: &str = "78981922613b2afb6025042ff6bd878ac1994e85";
const H2: &str = "61780798228d17af2d34fce4cfbdf35556832472";

fn staged(name: &str, hex: &str) -> IndexEntry {
    IndexEntry::with_default(
        Mode::Blob(BlobType::Plain),
        minigit::hash::Hash::from_str(hex).unwrap(),
        name,
    )
}

#[test]
fn single_character_name_pads_to_eight() {
    let raw = staged("a", H1).to_raw();
    // 62 fixed bytes and 1 name byte make 63; one NUL brings the entry to 64.
    assert_eq!(raw.len(), 64);
    assert_eq!(raw[62], b'a');
    assert_eq!(raw[63], 0);
    assert_eq!(&raw[60..62], &[0, 1]);
}

#[test]
fn padding_is_never_zero() {
    let raw = staged("abcdefghij", H1).to_raw();
    // 62 + 10 = 72 is a multiple of 8, so a full 8 bytes of padding follow.
    assert_eq!(raw.len(), 80);
    assert!(raw[72..].iter().all(|b| *b == 0));
}

#[test]
fn entry_fields_are_big_endian() {
    let mut e = staged("x", H2);
    e.created_at = 0x01020304;
    e.size = 7;
    let raw = e.to_raw();
    assert_eq!(&raw[0..4], &[1, 2, 3, 4]);
    assert_eq!(&raw[24..28], &0o100644u32.to_be_bytes());
    assert_eq!(&raw[36..40], &[0, 0, 0, 7]);
    assert_eq!(&raw[40..60], minigit::hash::Hash::from_str(H2).unwrap().to_raw().as_slice());
    let mut at = 0usize;
    let back = IndexEntry::from_raw(&raw, &mut at).unwrap();
    assert_eq!(back, e);
    assert_eq!(at, raw.len());
}

#[test]
fn index_round_trips() {
    let mut index = Index::new();
    index.insert(&[staged("b.txt", H2), staged("a.txt", H1), staged("dir/c", H1)]);
    let raw = index.to_raw();
    assert_eq!(&raw[0..4], b"DIRC");
    assert_eq!(&raw[4..8], &[0, 0, 0, 2]);
    assert_eq!(&raw[8..12], &[0, 0, 0, 3]);
    let back = Index::from_raw(&raw).unwrap();
    assert_eq!(back, index);
}

#[test]
fn insert_upserts_and_sorts() {
    let mut index = Index::new();
    index.insert(&[staged("zeta", H1), staged("alpha", H1)]);
    index.insert(&[staged("mid", H2), staged("zeta", H2)]);
    let names: Vec<&str> = index.entries.iter().map(|e| e.file_name.as_str()).collect();
    assert_eq!(names, vec!["alpha", "mid", "zeta"]);
    assert_eq!(index.entries[2].hash.to_string(), H2);
    assert_eq!(index.version, 2);
    assert_eq!(index.position("mid"), Some(1));
    assert_eq!(index.position("nope"), None);
}

#[test]
fn decode_errors_are_corrupt_index() {
    let mut index = Index::new();
    index.insert(&[staged("a", H1)]);
    let raw = index.to_raw();
    let mut bad_magic = raw.clone();
    bad_magic[0] = b'X';
    assert_eq!(Index::from_raw(&bad_magic), Err(GitError::CorruptIndex));
    let mut bad_version = raw.clone();
    bad_version[7] = 3;
    assert_eq!(Index::from_raw(&bad_version), Err(GitError::CorruptIndex));
    assert_eq!(Index::from_raw(&raw[..40]), Err(GitError::CorruptIndex));
    let mut bad_mode = raw.clone();
    bad_mode[12 + 27] = 0;
    assert_eq!(Index::from_raw(&bad_mode), Err(GitError::CorruptIndex));
    let mut long_name = raw.clone();
    long_name[12 + 61] = 200;
    assert_eq!(Index::from_raw(&long_name), Err(GitError::CorruptIndex));
}

#[test]
fn update_index_checks() {
    let mut index = Index::new();
    index.insert(&[staged("a", H1)]);
    let known = [staged("a", H2)];
    let unknown = [staged("b", H2)];
    assert_eq!(index.check_update(&known, false, false), Ok(()));
    assert_eq!(index.check_update(&unknown, false, false), Err(GitError::NotInIndex("b".to_string())));
    assert_eq!(index.check_update(&unknown, true, false), Ok(()));
    assert_eq!(index.check_update(&unknown, true, true), Err(GitError::ConflictingOptions));
    assert_eq!(index.check_update(&unknown, false, true), Err(GitError::RemoveUnsupported));
}

#[test]
fn stage_line_lists_mode_hash_and_path() {
    let line = staged("a.txt", H1).stage_line();
    assert_eq!(String::from_utf8(line).unwrap(), format!("100644 {} 0\ta.txt", H1));
}

#[test]
fn file_metadata_keeps_low_32_bits() {
    let stat = minigit::index::FileStat {
        ctime: 0x1_0000_0005,
        ctime_nsec: 7,
        mtime: -1,
        mtime_nsec: 9,
        dev: 0x2_0000_0003,
        ino: 11,
        uid: 1000,
        gid: 100,
        size: 0x1_0000_0010,
    };
    let hash = minigit::hash::Hash::from_str(H1).unwrap();
    let e = IndexEntry::with_file_metadata(Mode::Blob(BlobType::Executable), hash, "run.sh", &stat);
    assert_eq!(e.created_at, 5);
    assert_eq!(e.created_at_nsec, 7);
    assert_eq!(e.updated_at, 0xffff_ffff);
    assert_eq!(e.device_id, 3);
    assert_eq!(e.inode, 11);
    assert_eq!(e.user_id, 1000);
    assert_eq!(e.group_id, 100);
    assert_eq!(e.size, 0x10);
    assert_eq!(e.file_name, "run.sh");
}
