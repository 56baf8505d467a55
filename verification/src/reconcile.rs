//! The reconciliation algorithm.
//!
//! Given the freshly scanned live snapshot and the stored snapshot of the
//! previous run, a file is rewound exactly when its modification time
//! strictly advanced while its content digest stayed the same. The planned
//! state keeps the live snapshot's entries except that every rewound path
//! keeps its stored entry, so that the persisted state matches the rewound
//! filesystem.

use vstd::prelude::*;

use crate::snapshot::Data;
use crate::snapshot::EntryModel;
use crate::snapshot::Record;
use crate::snapshot::RecordModel;
use crate::snapshot::bytes_eq;
use crate::snapshot::clone_bytes;
use crate::snapshot::lemma_lookup_at;
use crate::snapshot::lemma_lookup_some;
use crate::snapshot::lookup;
use crate::snapshot::unique_paths;
use crate::snapshot::views_of;

verus! {

/// A live record is a rewind candidate exactly when the stored snapshot
/// holds its path, its modification time strictly advanced over the stored
/// one, and its content digest is unchanged.
pub open spec fn rewind_cond(stored: Seq<RecordModel>, r: RecordModel) -> bool {
    match lookup(stored, r.path) {
        Some(s) => r.entry.mtime > s.mtime && r.entry.hash == s.hash,
        None => false,
    }
}

/// A live record as it goes into the new state: the stored entry where the
/// record is rewound, the live entry otherwise.
pub open spec fn merged_rec(stored: Seq<RecordModel>, r: RecordModel) -> RecordModel {
    match lookup(stored, r.path) {
        Some(s) => if r.entry.mtime > s.mtime && r.entry.hash == s.hash {
            RecordModel { path: r.path, entry: s }
        } else {
            r
        },
        None => r,
    }
}

/// The new state: the live records, with every rewound path carrying its
/// stored entry.
pub open spec fn merged(live: Seq<RecordModel>, stored: Seq<RecordModel>) -> Seq<RecordModel> {
    Seq::new(live.len(), |i: int| merged_rec(stored, live[i]))
}

/// The rewound records, in live order: path and stored entry of every
/// rewind candidate.
pub open spec fn rewinds_of(live: Seq<RecordModel>, stored: Seq<RecordModel>) -> Seq<
    RecordModel,
>
    decreases live.len(),
{
    if live.len() == 0 {
        Seq::empty()
    } else {
        rewinds_of(live.drop_last(), stored) + (if rewind_cond(stored, live.last()) {
            seq![merged_rec(stored, live.last())]
        } else {
            Seq::empty()
        })
    }
}

/// What the new state records for a path, in terms of what the live and
/// stored snapshots record for it.
pub open spec fn merged_lookup(
    live: Seq<RecordModel>,
    stored: Seq<RecordModel>,
    p: Seq<u8>,
) -> Option<EntryModel> {
    match lookup(live, p) {
        Some(l) => Some(merged_rec(stored, RecordModel { path: p, entry: l }).entry),
        None => None,
    }
}

/// Looking a path up in the new state follows [`merged_lookup`]: a path
/// absent from the live scan is absent, a rewound path keeps its stored
/// entry, and every other path keeps its live entry.
pub proof fn lemma_lookup_merged(live: Seq<RecordModel>, stored: Seq<RecordModel>, p: Seq<u8>)
    ensures
        lookup(merged(live, stored), p) == merged_lookup(live, stored, p),
    decreases live.len(),
{
    let m = merged(live, stored);
    if live.len() > 0 {
        assert(m.last() == merged_rec(stored, live.last()));
        assert(m.drop_last() =~= merged(live.drop_last(), stored));
        lemma_lookup_merged(live.drop_last(), stored, p);
        if live.last().path == p {
            assert(live.last() == RecordModel { path: p, entry: live.last().entry });
        }
    }
}

/// No live record is a rewind candidate: nothing is rewound.
proof fn lemma_rewinds_none(live: Seq<RecordModel>, stored: Seq<RecordModel>)
    requires
        forall|i: int| 0 <= i < live.len() ==> !rewind_cond(stored, #[trigger] live[i]),
    ensures
        rewinds_of(live, stored) == Seq::<RecordModel>::empty(),
    decreases live.len(),
{
    if live.len() > 0 {
        assert(forall|i: int|
            0 <= i < live.drop_last().len() ==> live.drop_last()[i] == live[i]);
        lemma_rewinds_none(live.drop_last(), stored);
        Seq::add_empty_right(rewinds_of(live.drop_last(), stored), Seq::<RecordModel>::empty());
    }
}

/// A rewind candidate's path and stored entry are among the rewinds.
proof fn lemma_rewinds_member(live: Seq<RecordModel>, stored: Seq<RecordModel>, i: int)
    requires
        0 <= i < live.len(),
        rewind_cond(stored, live[i]),
    ensures
        rewinds_of(live, stored).contains(merged_rec(stored, live[i])),
    decreases live.len(),
{
    let rw = rewinds_of(live, stored);
    if i == live.len() - 1 {
        assert(rw[rw.len() - 1] == merged_rec(stored, live[i]));
    } else {
        assert(live.drop_last()[i] == live[i]);
        lemma_rewinds_member(live.drop_last(), stored, i);
        let sub = rewinds_of(live.drop_last(), stored);
        let k = choose|k: int| 0 <= k < sub.len() && sub[k] == merged_rec(stored, live[i]);
        assert(rw[k] == merged_rec(stored, live[i]));
    }
}

/// A path none of whose live records is a rewind candidate does not occur
/// among the rewinds.
proof fn lemma_rewinds_path_absent(live: Seq<RecordModel>, stored: Seq<RecordModel>, p: Seq<u8>)
    requires
        forall|i: int|
            0 <= i < live.len() && (#[trigger] live[i]).path == p ==> !rewind_cond(
                stored,
                live[i],
            ),
    ensures
        forall|k: int|
            0 <= k < rewinds_of(live, stored).len() ==> (#[trigger] rewinds_of(
                live,
                stored,
            )[k]).path != p,
    decreases live.len(),
{
    if live.len() > 0 {
        assert(forall|i: int|
            0 <= i < live.drop_last().len() ==> live.drop_last()[i] == live[i]);
        lemma_rewinds_path_absent(live.drop_last(), stored, p);
        let sub = rewinds_of(live.drop_last(), stored);
        let rw = rewinds_of(live, stored);
        if rewind_cond(stored, live.last()) {
            assert(live[live.len() - 1] == live.last());
            assert(live.last().path != p);
            assert(merged_rec(stored, live.last()).path == live.last().path);
            assert(forall|k: int| 0 <= k < sub.len() ==> rw[k] == sub[k]);
        } else {
            Seq::add_empty_right(sub, Seq::<RecordModel>::empty());
        }
    }
}

/// Running the reconciler against a stored snapshot equal to the live one
/// rewinds nothing and plans the live snapshot again unchanged: a second
/// run over an unchanged tree is a no-op.
pub proof fn lemma_reconcile_idempotent(d: Seq<RecordModel>)
    requires
        unique_paths(d),
    ensures
        merged(d, d) == d,
        rewinds_of(d, d) == Seq::<RecordModel>::empty(),
{
    assert forall|i: int| 0 <= i < d.len() implies !rewind_cond(d, #[trigger] d[i])
        && merged_rec(d, d[i]) == d[i] by {
        lemma_lookup_at(d, i);
    }
    assert(merged(d, d) =~= d);
    lemma_rewinds_none(d, d);
}

/// A path recorded in the stored snapshot but absent from the live scan is
/// simply absent from the new state: a deleted file causes no action.
pub proof fn lemma_deleted_path_absent(
    live: Seq<RecordModel>,
    stored: Seq<RecordModel>,
    p: Seq<u8>,
)
    requires
        lookup(live, p) is None,
    ensures
        lookup(merged(live, stored), p) is None,
        forall|k: int|
            0 <= k < rewinds_of(live, stored).len() ==> (#[trigger] rewinds_of(
                live,
                stored,
            )[k]).path != p,
{
    lemma_lookup_merged(live, stored, p);
    crate::snapshot::lemma_lookup_none(live, p);
    lemma_rewinds_path_absent(live, stored, p);
}

/// A file whose modification time advanced while its content stayed the
/// same is rewound: the new state records the stored entry for its path,
/// and the rewinds list the path with its stored entry as the time to
/// restore.
pub proof fn lemma_rewind_on_touch(
    live: Seq<RecordModel>,
    stored: Seq<RecordModel>,
    p: Seq<u8>,
    l: EntryModel,
    s: EntryModel,
)
    requires
        lookup(live, p) == Some(l),
        lookup(stored, p) == Some(s),
        l.mtime > s.mtime,
        l.hash == s.hash,
    ensures
        lookup(merged(live, stored), p) == Some(s),
        rewinds_of(live, stored).contains(RecordModel { path: p, entry: s }),
{
    lemma_lookup_merged(live, stored, p);
    lemma_lookup_some(live, p);
    let i = choose|i: int|
        0 <= i < live.len() && live[i].path == p && lookup(live, p) == Some(live[i].entry);
    assert(rewind_cond(stored, live[i]));
    assert(merged_rec(stored, live[i]) == RecordModel { path: p, entry: s });
    lemma_rewinds_member(live, stored, i);
}

/// A file whose content genuinely changed is left alone, whatever its
/// modification time did: the new state keeps the live entry and its path
/// is not among the rewinds.
pub proof fn lemma_keep_on_edit(
    live: Seq<RecordModel>,
    stored: Seq<RecordModel>,
    p: Seq<u8>,
    l: EntryModel,
    s: EntryModel,
)
    requires
        unique_paths(live),
        lookup(live, p) == Some(l),
        lookup(stored, p) == Some(s),
        l.hash != s.hash,
    ensures
        lookup(merged(live, stored), p) == Some(l),
        forall|k: int|
            0 <= k < rewinds_of(live, stored).len() ==> (#[trigger] rewinds_of(
                live,
                stored,
            )[k]).path != p,
{
    lemma_lookup_merged(live, stored, p);
    assert forall|i: int|
        0 <= i < live.len() && (#[trigger] live[i]).path == p implies !rewind_cond(
        stored,
        live[i],
    ) by {
        lemma_lookup_at(live, i);
    }
    lemma_rewinds_path_absent(live, stored, p);
}

/// What the reconciler decided: the rewinds to apply to the filesystem, the
/// snapshot to persist, and whether to do either.
pub struct Outcome {
    pub rewinds: Vec<Record>,
    pub new_state: Data,
    pub apply: bool,
    pub save: bool,
}

/// Plans one run against the stored state, if any.
///
/// With no stored state the live snapshot becomes the baseline: nothing is
/// rewound and the live snapshot is persisted as it is, dry run or not.
/// Otherwise the rewind candidates are exactly the paths whose modification
/// time strictly advanced with unchanged content; the new state is the live
/// snapshot with every rewound path keeping its stored entry; and in a dry
/// run neither the filesystem nor the stored state is touched, while the
/// planned rewinds are still reported.
pub fn reconcile(live: &Data, stored: Option<&Data>, dry: bool) -> (o: Outcome)
    ensures
        o.new_state@.root == live@.root,
        o.apply == !dry,
        live.wf() ==> o.new_state.wf(),
        match stored {
            None => o.new_state@.data == live@.data && o.rewinds@.len() == 0 && o.save,
            Some(s) => o.new_state@.data == merged(live@.data, s@.data) && views_of(
                o.rewinds@,
            ) == rewinds_of(live@.data, s@.data) && o.save == !dry,
        },
{
    match stored {
        None => {
            let o = Outcome {
                rewinds: Vec::new(),
                new_state: live.duplicate(),
                apply: !dry,
                save: true,
            };
            o
        },
        Some(s) => {
            let ghost lv = live@.data;
            let ghost st = s@.data;
            let mut new_recs: Vec<Record> = Vec::new();
            let mut rewinds: Vec<Record> = Vec::new();
            let n = live.data.len();
            let mut i: usize = 0;
            proof {
                assert(lv.take(0) =~= Seq::<RecordModel>::empty());
            }
            while i < n
                invariant
                    n == live.data.len(),
                    i <= n,
                    lv == live@.data,
                    st == s@.data,
                    new_recs@.len() == i,
                    forall|j: int| 0 <= j < i ==> new_recs@[j]@ == merged_rec(st, lv[j]),
                    views_of(rewinds@) == rewinds_of(lv.take(i as int), st),
                decreases n - i,
            {
                let rec = &live.data[i];
                let ghost pre = rewinds@;
                let mut is_rewind = false;
                match s.get_entry(&rec.path) {
                    Some(e) => {
                        if rec.entry.mtime > e.mtime && bytes_eq(&rec.entry.hash, &e.hash) {
                            is_rewind = true;
                            new_recs.push(
                                Record { path: clone_bytes(&rec.path), entry: e.duplicate() },
                            );
                            rewinds.push(
                                Record { path: clone_bytes(&rec.path), entry: e.duplicate() },
                            );
                        } else {
                            new_recs.push(rec.duplicate());
                        }
                    },
                    None => {
                        new_recs.push(rec.duplicate());
                    },
                }
                proof {
                    assert(is_rewind == rewind_cond(st, lv[i as int]));
                    assert(lv.take(i + 1).drop_last() =~= lv.take(i as int));
                    assert(lv.take(i + 1).last() == lv[i as int]);
                    if is_rewind {
                        assert(rewinds@.last()@ == merged_rec(st, lv[i as int]));
                        assert(views_of(rewinds@) =~= views_of(pre) + seq![
                            merged_rec(st, lv[i as int]),
                        ]);
                    } else {
                        Seq::add_empty_right(
                            views_of(rewinds@),
                            Seq::<RecordModel>::empty(),
                        );
                        assert(views_of(rewinds@) =~= views_of(pre));
                    }
                }
                i = i + 1;
            }
            let root = clone_bytes(&live.root);
            let new_state = Data { data: new_recs, root };
            proof {
                assert(lv.take(n as int) =~= lv);
                assert(new_state@.data =~= merged(lv, st));
                if live.wf() {
                    assert(forall|a: int|
                        0 <= a < lv.len() ==> merged(lv, st)[a].path == lv[a].path);
                    assert(unique_paths(merged(lv, st)));
                }
            }
            let o = Outcome { rewinds, new_state, apply: !dry, save: !dry };
            o
        },
    }
}

} // verus!
