use mtime_rewind::codec::StateError;
use mtime_rewind::codec::load_state;
use mtime_rewind::snapshot::Data;
use mtime_rewind::snapshot::Entry;

fn sample() -> Data {
    let mut d = Data::new(b"/tmp/root".to_vec());
    d.insert(
        b"/tmp/root/a".to_vec(),
        Entry { hash: vec![1u8; 32], mtime: 1_000_000_007 },
    );
    d.insert(
        b"/tmp/root/b".to_vec(),
        Entry { hash: vec![2u8; 32], mtime: 42 },
    );
    d
}

#[test]
fn encode_decode_round_trip() {
    let d = sample();
    let bytes = d.encode();
    let back = Data::decode(&bytes).expect("round trip must decode");
    assert_eq!(back.root, d.root);
    assert_eq!(back.data.len(), d.data.len());
    for (a, b) in back.data.iter().zip(d.data.iter()) {
        assert_eq!(a.path, b.path);
        assert_eq!(a.entry.hash, b.entry.hash);
        assert_eq!(a.entry.mtime, b.entry.mtime);
    }
}

#[test]
fn encode_is_deterministic() {
    let d = sample();
    assert_eq!(d.encode(), sample().encode());
}

#[test]
fn decode_rejects_truncated() {
    let d = sample();
    let mut bytes = d.encode();
    bytes.pop();
    assert!(matches!(Data::decode(&bytes), Err(StateError::DeserializeError)));
}

#[test]
fn decode_rejects_trailing_garbage() {
    let d = sample();
    let mut bytes = d.encode();
    bytes.push(0);
    assert!(matches!(Data::decode(&bytes), Err(StateError::DeserializeError)));
}

#[test]
fn decode_rejects_empty() {
    let bytes: Vec<u8> = Vec::new();
    assert!(matches!(Data::decode(&bytes), Err(StateError::DeserializeError)));
}

#[test]
fn load_state_checks_root() {
    let d = sample();
    let bytes = d.encode();
    let other = b"/tmp/elsewhere".to_vec();
    match load_state(&bytes, &other) {
        Err(StateError::RootMismatch) => {},
        r => panic!("expected a root mismatch, got {:?}", r.map(|_| ())),
    }
    let same = b"/tmp/root".to_vec();
    let loaded = load_state(&bytes, &same).expect("matching root must load");
    assert_eq!(loaded.root, d.root);
    assert_eq!(loaded.data.len(), 2);
}

#[test]
fn load_state_rejects_garbage() {
    let bytes = vec![9u8; 11];
    let root = b"/tmp/root".to_vec();
    match load_state(&bytes, &root) {
        Err(StateError::DeserializeError) => {},
        r => panic!("expected a deserialize error, got {:?}", r.map(|_| ())),
    }
}
