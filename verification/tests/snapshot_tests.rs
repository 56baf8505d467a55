use sha2::Digest;

use mtime_rewind::scan::cache_marker_name;
use mtime_rewind::scan::keep_entry;
use mtime_rewind::snapshot::Data;
use mtime_rewind::snapshot::Entry;

#[test]
fn entry_hash_is_sha256_of_content() {
    let content = b"hello world".to_vec();
    let e = Entry::from_bytes(&content, 7);
    let expected = sha2::Sha256::digest(b"hello world").to_vec();
    assert_eq!(e.hash, expected);
    assert_eq!(e.hash.len(), 32);
    assert_eq!(e.mtime, 7);
    assert_ne!(e.hash, content);
    let other = Entry::from_bytes(&b"hello world!".to_vec(), 7);
    assert_ne!(e.hash, other.hash);
}

#[test]
fn insert_and_get() {
    let mut d = Data::new(b"/r".to_vec());
    assert!(d.get_entry(&b"/r/a".to_vec()).is_none());
    d.insert(b"/r/a".to_vec(), Entry { hash: vec![1u8; 32], mtime: 5 });
    d.insert(b"/r/b".to_vec(), Entry { hash: vec![2u8; 32], mtime: 6 });
    let a = d.get_entry(&b"/r/a".to_vec()).expect("a was inserted");
    assert_eq!(a.mtime, 5);
    assert_eq!(a.hash, vec![1u8; 32]);
    let b = d.get_entry(&b"/r/b".to_vec()).expect("b was inserted");
    assert_eq!(b.mtime, 6);
}

#[test]
fn insert_overwrites() {
    let mut d = Data::new(b"/r".to_vec());
    d.insert(b"/r/a".to_vec(), Entry { hash: vec![1u8; 32], mtime: 5 });
    d.insert(b"/r/a".to_vec(), Entry { hash: vec![3u8; 32], mtime: 9 });
    assert_eq!(d.data.len(), 1);
    let a = d.get_entry(&b"/r/a".to_vec()).expect("a is recorded");
    assert_eq!(a.mtime, 9);
    assert_eq!(a.hash, vec![3u8; 32]);
}

#[test]
fn hashes_file_is_under_root() {
    assert_eq!(
        Data::hashes_file(&b"/tmp/root".to_vec()),
        b"/tmp/root/.hashprint".to_vec()
    );
    assert_eq!(
        Data::hashes_file(&b"/tmp/root/".to_vec()),
        b"/tmp/root/.hashprint".to_vec()
    );
    assert_eq!(Data::hashes_file(&b"".to_vec()), b".hashprint".to_vec());
}

#[test]
fn pruning_rules() {
    assert!(keep_entry(false, &b"src".to_vec()));
    assert!(!keep_entry(false, &b".git".to_vec()));
    assert!(!keep_entry(false, &b".".to_vec()));
    assert!(!keep_entry(true, &b"target".to_vec()));
    assert!(!keep_entry(true, &b".hidden".to_vec()));
    assert!(keep_entry(false, &b"a.b".to_vec()));
    assert_eq!(cache_marker_name(), b"CACHEDIR.TAG".to_vec());
}
