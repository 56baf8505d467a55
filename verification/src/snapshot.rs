//! The snapshot data model: one recorded entry per regular file under a
//! root, keyed by the file's absolute path.
//!
//! Paths are held as plain byte strings, and modification times as
//! nanoseconds since the Unix epoch, so that every rule of the tool is a
//! statement about plain values.

use vstd::prelude::*;

use crate::digest::sha256;
use crate::digest::sha256_of;

verus! {

/// One file's recorded state: the digest of its content and its
/// modification time, in nanoseconds since the Unix epoch.
pub struct Entry {
    pub hash: Vec<u8>,
    pub mtime: u64,
}

/// The mathematical value of an [`Entry`].
pub ghost struct EntryModel {
    pub hash: Seq<u8>,
    pub mtime: u64,
}

impl View for Entry {
    type V = EntryModel;

    open spec fn view(&self) -> EntryModel {
        EntryModel { hash: self.hash@, mtime: self.mtime }
    }
}

/// A path paired with its recorded entry.
pub struct Record {
    pub path: Vec<u8>,
    pub entry: Entry,
}

/// The mathematical value of a [`Record`].
pub ghost struct RecordModel {
    pub path: Seq<u8>,
    pub entry: EntryModel,
}

impl View for Record {
    type V = RecordModel;

    open spec fn view(&self) -> RecordModel {
        RecordModel { path: self.path@, entry: self.entry@ }
    }
}

/// The values of a sequence of records.
pub open spec fn views_of(s: Seq<Record>) -> Seq<RecordModel> {
    Seq::new(s.len(), |i: int| s[i]@)
}

/// The full recorded state of one root: a mapping from absolute file path
/// to entry, together with the root the snapshot was computed for.
pub struct Data {
    pub data: Vec<Record>,
    pub root: Vec<u8>,
}

/// The mathematical value of a [`Data`] snapshot.
pub ghost struct DataModel {
    pub data: Seq<RecordModel>,
    pub root: Seq<u8>,
}

impl View for Data {
    type V = DataModel;

    open spec fn view(&self) -> DataModel {
        DataModel { data: views_of(self.data@), root: self.root@ }
    }
}

/// The byte of the path separator `/`.
pub const SLASH: u8 = 47;

/// The name of the hidden state file kept inside each root: `.hashprint`.
pub open spec fn spec_state_file_name() -> Seq<u8> {
    seq![46u8, 104u8, 97u8, 115u8, 104u8, 112u8, 114u8, 105u8, 110u8, 116u8]
}

/// The name of the hidden state file kept inside each root: `.hashprint`.
pub fn state_file_name() -> (r: Vec<u8>)
    ensures
        r@ == spec_state_file_name(),
{
    let mut r = Vec::new();
    r.push(46u8);
    r.push(104u8);
    r.push(97u8);
    r.push(115u8);
    r.push(104u8);
    r.push(112u8);
    r.push(114u8);
    r.push(105u8);
    r.push(110u8);
    r.push(116u8);
    proof {
        assert(r@ =~= spec_state_file_name());
    }
    r
}

/// The path of the state file for a root: the state file name appended to
/// the root, with a separator between them unless the root already ends in
/// one or is empty.
pub open spec fn spec_hashes_file(root: Seq<u8>) -> Seq<u8> {
    if root.len() > 0 && root.last() != SLASH {
        root + seq![SLASH] + spec_state_file_name()
    } else {
        root + spec_state_file_name()
    }
}

/// No two records share a path, so the record sequence denotes a mapping.
pub open spec fn unique_paths(s: Seq<RecordModel>) -> bool {
    forall|i: int, j: int| 0 <= i < j < s.len() ==> s[i].path != s[j].path
}

/// The entry recorded for path `p`, if any. Later records take precedence,
/// matching insertion that overwrites.
pub open spec fn lookup(s: Seq<RecordModel>, p: Seq<u8>) -> Option<EntryModel>
    decreases s.len(),
{
    if s.len() == 0 {
        None
    } else if s.last().path == p {
        Some(s.last().entry)
    } else {
        lookup(s.drop_last(), p)
    }
}

/// A path absent from the mapping is the path of no record.
pub proof fn lemma_lookup_none(s: Seq<RecordModel>, p: Seq<u8>)
    requires
        lookup(s, p) is None,
    ensures
        forall|i: int| 0 <= i < s.len() ==> s[i].path != p,
    decreases s.len(),
{
    if s.len() > 0 {
        lemma_lookup_none(s.drop_last(), p);
        assert(forall|i: int| 0 <= i < s.len() - 1 ==> s[i] == s.drop_last()[i]);
    }
}

/// In a well-formed record sequence, every record is found by its own path.
pub proof fn lemma_lookup_at(s: Seq<RecordModel>, i: int)
    requires
        unique_paths(s),
        0 <= i < s.len(),
    ensures
        lookup(s, s[i].path) == Some(s[i].entry),
    decreases s.len(),
{
    if i < s.len() - 1 {
        assert(s.last().path != s[i].path);
        assert(unique_paths(s.drop_last()));
        assert(s.drop_last()[i] == s[i]);
        lemma_lookup_at(s.drop_last(), i);
    }
}

/// A found entry is the entry of some record with that path.
pub proof fn lemma_lookup_some(s: Seq<RecordModel>, p: Seq<u8>)
    requires
        lookup(s, p) is Some,
    ensures
        exists|i: int|
            0 <= i < s.len() && s[i].path == p && lookup(s, p) == Some(s[i].entry),
    decreases s.len(),
{
    if s.last().path == p {
        assert(s[s.len() - 1].path == p);
    } else {
        lemma_lookup_some(s.drop_last(), p);
        let i = choose|i: int|
            0 <= i < s.drop_last().len() && s.drop_last()[i].path == p && lookup(
                s.drop_last(),
                p,
            ) == Some(s.drop_last()[i].entry);
        assert(s[i] == s.drop_last()[i]);
    }
}

/// Replacing the record at a path's own index rebinds that path and leaves
/// every other path's binding unchanged.
pub proof fn lemma_lookup_update(s: Seq<RecordModel>, j: int, r: RecordModel)
    requires
        unique_paths(s),
        0 <= j < s.len(),
        s[j].path == r.path,
    ensures
        unique_paths(s.update(j, r)),
        lookup(s.update(j, r), r.path) == Some(r.entry),
        forall|q: Seq<u8>| q != r.path ==> lookup(s.update(j, r), q) == lookup(s, q),
    decreases s.len(),
{
    let u = s.update(j, r);
    assert(unique_paths(u));
    if j == s.len() - 1 {
        assert(u.last() == r);
        assert(u.drop_last() =~= s.drop_last());
        assert forall|q: Seq<u8>| q != r.path implies lookup(u, q) == lookup(s, q) by {
            assert(lookup(u, q) == lookup(s.drop_last(), q));
            assert(s.last().path == r.path);
            assert(lookup(s, q) == lookup(s.drop_last(), q));
        }
    } else {
        assert(u.last() == s.last());
        assert(u.drop_last() =~= s.drop_last().update(j, r));
        assert(unique_paths(s.drop_last()));
        assert(s.drop_last()[j] == s[j]);
        lemma_lookup_update(s.drop_last(), j, r);
        assert(s.last().path != r.path);
        assert forall|q: Seq<u8>| q != r.path implies lookup(u, q) == lookup(s, q) by {
            if u.last().path == q {
                assert(lookup(u, q) == Some(s.last().entry));
                assert(lookup(s, q) == Some(s.last().entry));
            } else {
                assert(lookup(u, q) == lookup(u.drop_last(), q));
                assert(lookup(s, q) == lookup(s.drop_last(), q));
            }
        }
    }
}

/// Appending a record binds its path and leaves every other path's binding
/// unchanged; a fresh path keeps the sequence well formed.
pub proof fn lemma_lookup_push(s: Seq<RecordModel>, r: RecordModel)
    ensures
        lookup(s.push(r), r.path) == Some(r.entry),
        forall|q: Seq<u8>| q != r.path ==> lookup(s.push(r), q) == lookup(s, q),
        unique_paths(s) && lookup(s, r.path) is None ==> unique_paths(s.push(r)),
{
    let u = s.push(r);
    assert(u.last() == r);
    assert(u.drop_last() =~= s);
    if unique_paths(s) && lookup(s, r.path) is None {
        lemma_lookup_none(s, r.path);
        assert(forall|i: int, jj: int|
            0 <= i < jj < u.len() ==> u[i].path != u[jj].path);
    }
}

impl Entry {
    /// The entry recording the given file content and modification time.
    pub fn from_bytes(content: &Vec<u8>, mtime: u64) -> (r: Entry)
        ensures
            r@.hash == sha256_of(content@),
            r@.hash.len() == 32,
            r@.mtime == mtime,
    {
        Entry { hash: sha256(content), mtime }
    }

    /// A copy of this entry with the same value.
    pub fn duplicate(&self) -> (r: Entry)
        ensures
            r@ == self@,
    {
        let h = self.hash.clone();
        proof {
            assert(h@ =~= self.hash@);
        }
        Entry { hash: h, mtime: self.mtime }
    }
}

impl Record {
    /// A copy of this record with the same value.
    pub fn duplicate(&self) -> (r: Record)
        ensures
            r@ == self@,
    {
        let p = self.path.clone();
        proof {
            assert(p@ =~= self.path@);
        }
        Record { path: p, entry: self.entry.duplicate() }
    }
}

/// A copy of a byte string with the same bytes.
pub fn clone_bytes(b: &Vec<u8>) -> (r: Vec<u8>)
    ensures
        r@ == b@,
{
    let r = b.clone();
    proof {
        assert(r@ =~= b@);
    }
    r
}

/// True exactly when the two byte strings hold the same bytes.
pub fn bytes_eq(a: &Vec<u8>, b: &Vec<u8>) -> (r: bool)
    ensures
        r == (a@ == b@),
{
    let r = *a == *b;
    proof {
        if r {
            assert(a@ =~= b@);
        }
        if a@ == b@ {
            assert(a.len() == b.len());
            assert(forall|i: int| 0 <= i < a@.len() ==> a@[i] == b@[i]);
        }
    }
    r
}

impl Data {
    /// An empty snapshot for the given root.
    pub fn new(root: Vec<u8>) -> (r: Data)
        ensures
            r@.root == root@,
            r@.data.len() == 0,
            r.wf(),
    {
        Data { data: Vec::new(), root }
    }

    /// The snapshot denotes a mapping: no path is recorded twice.
    pub open spec fn wf(&self) -> bool {
        unique_paths(self@.data)
    }

    /// The entry recorded for the given path, if any.
    pub fn get_entry(&self, p: &Vec<u8>) -> (r: Option<&Entry>)
        ensures
            match r {
                Some(e) => lookup(self@.data, p@) == Some(e@),
                None => lookup(self@.data, p@) is None,
            },
    {
        let ghost s = self@.data;
        let mut j: usize = self.data.len();
        proof {
            assert(s.take(j as int) =~= s);
        }
        while j > 0
            invariant
                j <= self.data.len(),
                s == self@.data,
                lookup(s, p@) == lookup(s.take(j as int), p@),
            decreases j,
        {
            proof {
                assert(s.take(j as int).last() == s[j - 1]);
                assert(s.take(j as int).drop_last() =~= s.take(j - 1));
            }
            if bytes_eq(&self.data[j - 1].path, p) {
                return Some(&self.data[j - 1].entry);
            }
            j = j - 1;
        }
        proof {
            assert(s.take(0) =~= Seq::<RecordModel>::empty());
        }
        None
    }

    /// Records `entry` under `path`, overwriting any prior entry for that
    /// path and leaving every other path's binding unchanged.
    pub fn insert(&mut self, path: Vec<u8>, entry: Entry)
        requires
            old(self).wf(),
        ensures
            final(self).wf(),
            final(self)@.root == old(self)@.root,
            lookup(final(self)@.data, path@) == Some(entry@),
            forall|q: Seq<u8>|
                q != path@ ==> lookup(final(self)@.data, q) == lookup(old(self)@.data, q),
    {
        let ghost s = self@.data;
        let n = self.data.len();
        let mut j: usize = 0;
        while j < n
            invariant
                old(self).wf(),
                *self == *old(self),
                n == self.data.len(),
                j <= n,
                s == self@.data,
                forall|k: int| 0 <= k < j ==> s[k].path != path@,
            decreases n - j,
        {
            if bytes_eq(&self.data[j].path, &path) {
                let r = Record { path, entry };
                let ghost rm = r@;
                self.data[j] = r;
                proof {
                    assert(views_of(self.data@) =~= s.update(j as int, rm));
                    lemma_lookup_update(s, j as int, rm);
                }
                return ;
            }
            j = j + 1;
        }
        let r = Record { path, entry };
        let ghost rm = r@;
        self.data.push(r);
        proof {
            assert(views_of(self.data@) =~= s.push(rm));
            lemma_lookup_push(s, rm);
            if lookup(s, rm.path) is Some {
                lemma_lookup_some(s, rm.path);
            }
        }
    }

    /// Where the state file for `root` lives: a file named
    /// [`state_file_name`] directly inside the root directory.
    pub fn hashes_file(root: &Vec<u8>) -> (r: Vec<u8>)
        ensures
            r@ == spec_hashes_file(root@),
    {
        let mut r = Vec::new();
        let mut i: usize = 0;
        let n = root.len();
        while i < n
            invariant
                n == root.len(),
                i <= n,
                r@ == root@.take(i as int),
            decreases n - i,
        {
            proof {
                assert(root@.take(i + 1).drop_last() =~= root@.take(i as int));
                assert(root@.take(i + 1).last() == root@[i as int]);
            }
            r.push(root[i]);
            i = i + 1;
        }
        proof {
            assert(root@.take(n as int) =~= root@);
        }
        if n > 0 && root[n - 1] != SLASH {
            r.push(SLASH);
        }
        let mut j: usize = 0;
        let name = state_file_name();
        let ghost base = r@;
        while j < name.len()
            invariant
                name@ == spec_state_file_name(),
                j <= name.len(),
                r@ == base + name@.take(j as int),
            decreases name.len() - j,
        {
            proof {
                assert(name@.take(j + 1).drop_last() =~= name@.take(j as int));
                assert(name@.take(j + 1).last() == name@[j as int]);
            }
            r.push(name[j]);
            j = j + 1;
        }
        proof {
            assert(name@.take(name@.len() as int) =~= name@);
            assert(r@ =~= spec_hashes_file(root@));
        }
        r
    }

    /// A copy of this snapshot with the same value.
    pub fn duplicate(&self) -> (r: Data)
        ensures
            r@ == self@,
    {
        let mut recs: Vec<Record> = Vec::new();
        let n = self.data.len();
        let mut i: usize = 0;
        while i < n
            invariant
                n == self.data.len(),
                i <= n,
                recs@.len() == i,
                forall|j: int| 0 <= j < i ==> recs@[j]@ == self.data@[j]@,
            decreases n - i,
        {
            recs.push(self.data[i].duplicate());
            i = i + 1;
        }
        let root = self.root.clone();
        proof {
            assert(root@ =~= self.root@);
            assert(views_of(recs@) =~= views_of(self.data@));
        }
        Data { data: recs, root }
    }
}

} // verus!
