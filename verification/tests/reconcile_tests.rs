use mtime_rewind::reconcile::reconcile;
use mtime_rewind::snapshot::Data;
use mtime_rewind::snapshot::Entry;

const T0: u64 = 1_000;
const T1: u64 = 2_000;

fn snap(entries: &[(&[u8], u8, u64)]) -> Data {
    let mut d = Data::new(b"/r".to_vec());
    for (path, fill, mtime) in entries {
        d.insert(path.to_vec(), Entry { hash: vec![*fill; 32], mtime: *mtime });
    }
    d
}

#[test]
fn first_run_saves_baseline_without_rewinds() {
    let live = snap(&[(b"/r/a", 1, T0), (b"/r/b", 2, T0)]);
    let o = reconcile(&live, None, false);
    assert_eq!(o.rewinds.len(), 0);
    assert!(o.save);
    assert!(o.apply);
    assert_eq!(o.new_state.encode(), live.encode());
}

#[test]
fn second_run_unchanged_is_identical() {
    let live = snap(&[(b"/r/a", 1, T0), (b"/r/b", 2, T0)]);
    let stored = snap(&[(b"/r/a", 1, T0), (b"/r/b", 2, T0)]);
    let o = reconcile(&live, Some(&stored), false);
    assert_eq!(o.rewinds.len(), 0);
    assert!(o.save);
    assert_eq!(o.new_state.encode(), live.encode());
}

#[test]
fn touch_without_edit_is_rewound() {
    let live = snap(&[(b"/r/a", 1, T1)]);
    let stored = snap(&[(b"/r/a", 1, T0)]);
    let o = reconcile(&live, Some(&stored), false);
    assert_eq!(o.rewinds.len(), 1);
    assert_eq!(o.rewinds[0].path, b"/r/a".to_vec());
    assert_eq!(o.rewinds[0].entry.mtime, T0);
    let a = o.new_state.get_entry(&b"/r/a".to_vec()).expect("a stays recorded");
    assert_eq!(a.mtime, T0);
    assert_eq!(a.hash, vec![1u8; 32]);
    assert!(o.save);
    assert!(o.apply);
}

#[test]
fn genuine_edit_is_kept() {
    let live = snap(&[(b"/r/b", 3, T1)]);
    let stored = snap(&[(b"/r/b", 2, T0)]);
    let o = reconcile(&live, Some(&stored), false);
    assert_eq!(o.rewinds.len(), 0);
    let b = o.new_state.get_entry(&b"/r/b".to_vec()).expect("b stays recorded");
    assert_eq!(b.mtime, T1);
    assert_eq!(b.hash, vec![3u8; 32]);
}

#[test]
fn equal_or_earlier_mtime_is_not_rewound() {
    let live = snap(&[(b"/r/a", 1, T0), (b"/r/b", 2, T0)]);
    let stored = snap(&[(b"/r/a", 1, T0), (b"/r/b", 2, T1)]);
    let o = reconcile(&live, Some(&stored), false);
    assert_eq!(o.rewinds.len(), 0);
    assert_eq!(o.new_state.get_entry(&b"/r/a".to_vec()).unwrap().mtime, T0);
    assert_eq!(o.new_state.get_entry(&b"/r/b".to_vec()).unwrap().mtime, T0);
}

#[test]
fn dry_run_reports_but_neither_applies_nor_saves() {
    let live = snap(&[(b"/r/a", 1, T1)]);
    let stored = snap(&[(b"/r/a", 1, T0)]);
    let o = reconcile(&live, Some(&stored), true);
    assert_eq!(o.rewinds.len(), 1);
    assert_eq!(o.rewinds[0].entry.mtime, T0);
    assert!(!o.apply);
    assert!(!o.save);
}

#[test]
fn deleted_file_is_dropped_without_error() {
    let live = snap(&[(b"/r/a", 1, T0)]);
    let stored = snap(&[(b"/r/a", 1, T0), (b"/r/gone", 9, T0)]);
    let o = reconcile(&live, Some(&stored), false);
    assert_eq!(o.rewinds.len(), 0);
    assert!(o.new_state.get_entry(&b"/r/gone".to_vec()).is_none());
    assert_eq!(o.new_state.data.len(), 1);
}

#[test]
fn mixed_run_handles_each_file_by_its_own_rule() {
    let live = snap(&[
        (b"/r/touched", 1, T1),
        (b"/r/edited", 7, T1),
        (b"/r/same", 5, T0),
    ]);
    let stored = snap(&[
        (b"/r/touched", 1, T0),
        (b"/r/edited", 6, T0),
        (b"/r/same", 5, T0),
        (b"/r/gone", 9, T0),
    ]);
    let o = reconcile(&live, Some(&stored), false);
    assert_eq!(o.rewinds.len(), 1);
    assert_eq!(o.rewinds[0].path, b"/r/touched".to_vec());
    assert_eq!(o.new_state.get_entry(&b"/r/touched".to_vec()).unwrap().mtime, T0);
    assert_eq!(o.new_state.get_entry(&b"/r/edited".to_vec()).unwrap().mtime, T1);
    assert_eq!(o.new_state.get_entry(&b"/r/same".to_vec()).unwrap().mtime, T0);
    assert!(o.new_state.get_entry(&b"/r/gone".to_vec()).is_none());
}
