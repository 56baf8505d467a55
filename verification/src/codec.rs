//! The binary state-file format.
//!
//! A snapshot is persisted as: the root path as a length-prefixed byte
//! string, the record count, and then each record as its length-prefixed
//! path, its length-prefixed digest, and its modification time. All
//! integers are 64-bit little-endian. The format is private to the tool;
//! decoding rejects anything that is not the exact encoding of a snapshot.

use vstd::prelude::*;

use crate::snapshot::Data;
use crate::snapshot::DataModel;
use crate::snapshot::Entry;
use crate::snapshot::EntryModel;
use crate::snapshot::Record;
use crate::snapshot::RecordModel;
use crate::snapshot::bytes_eq;
use crate::snapshot::unique_paths;
use crate::snapshot::views_of;

verus! {

/// Why a run failed: an I/O failure, no stored state (the recognized
/// first-run signal), a malformed state file, or a state file recorded for
/// a different root.
#[derive(Debug, Clone, Copy, PartialEq, Eq)]
pub enum StateError {
    IoError,
    NotFound,
    DeserializeError,
    RootMismatch,
}

/// The eight little-endian bytes of a 64-bit integer.
#[verifier::opaque]
pub open spec fn u64_le(v: u64) -> Seq<u8> {
    seq![
        (v % 0x100) as u8,
        ((v / 0x100) % 0x100) as u8,
        ((v / 0x10000) % 0x100) as u8,
        ((v / 0x1000000) % 0x100) as u8,
        ((v / 0x100000000) % 0x100) as u8,
        ((v / 0x10000000000) % 0x100) as u8,
        ((v / 0x1000000000000) % 0x100) as u8,
        ((v / 0x100000000000000) % 0x100) as u8,
    ]
}

/// The value of eight little-endian bytes.
#[verifier::opaque]
pub open spec fn u64_of_le(s: Seq<u8>) -> int
    recommends
        s.len() == 8,
{
    s[0] + s[1] * 0x100 + s[2] * 0x10000 + s[3] * 0x1000000 + s[4] * 0x100000000 + s[5]
        * 0x10000000000 + s[6] * 0x1000000000000 + s[7] * 0x100000000000000
}

/// Reading back the eight little-endian bytes of an integer gives the
/// integer.
pub proof fn lemma_u64_le_of(v: u64)
    ensures
        u64_le(v).len() == 8,
        u64_of_le(u64_le(v)) == v,
{
    reveal(u64_le);
    reveal(u64_of_le);
    assert(((v % 0x100) as u8) + (((v / 0x100) % 0x100) as u8) * 0x100 + (((v / 0x10000)
        % 0x100) as u8) * 0x10000 + (((v / 0x1000000) % 0x100) as u8) * 0x1000000 + (((v
        / 0x100000000) % 0x100) as u8) * 0x100000000 + (((v / 0x10000000000) % 0x100) as u8)
        * 0x10000000000 + (((v / 0x1000000000000) % 0x100) as u8) * 0x1000000000000 + (((v
        / 0x100000000000000) % 0x100) as u8) * 0x100000000000000 == v) by (bit_vector);
}

/// A byte string prefixed by its length.
pub open spec fn enc_bytes(b: Seq<u8>) -> Seq<u8>
    recommends
        b.len() <= u64::MAX,
{
    u64_le(b.len() as u64) + b
}

/// One record: length-prefixed path, length-prefixed digest, modification
/// time.
pub open spec fn enc_record(r: RecordModel) -> Seq<u8> {
    enc_bytes(r.path) + enc_bytes(r.entry.hash) + u64_le(r.entry.mtime)
}

/// The records, one after the other.
pub open spec fn enc_records(s: Seq<RecordModel>) -> Seq<u8>
    decreases s.len(),
{
    if s.len() == 0 {
        Seq::empty()
    } else {
        enc_record(s.first()) + enc_records(s.drop_first())
    }
}

/// The whole state file: root, record count, records.
pub open spec fn spec_encode(d: DataModel) -> Seq<u8> {
    enc_bytes(d.root) + u64_le(d.data.len() as u64) + enc_records(d.data)
}

/// Every length in the snapshot fits the length prefix. Values built in
/// memory always satisfy this.
pub open spec fn sizes_ok(d: DataModel) -> bool {
    &&& d.root.len() <= u64::MAX
    &&& d.data.len() <= u64::MAX
    &&& forall|i: int|
        0 <= i < d.data.len() ==> (#[trigger] d.data[i]).path.len() <= u64::MAX
            && d.data[i].entry.hash.len() <= u64::MAX
}

/// A 64-bit integer read off the front, with the rest.
pub open spec fn parse_u64(s: Seq<u8>) -> Option<(u64, Seq<u8>)> {
    if s.len() >= 8 {
        Some((u64_of_le(s.take(8)) as u64, s.skip(8)))
    } else {
        None
    }
}

/// A length-prefixed byte string read off the front, with the rest.
pub open spec fn parse_bytes(s: Seq<u8>) -> Option<(Seq<u8>, Seq<u8>)> {
    match parse_u64(s) {
        Some((n, r)) => if r.len() >= n {
            Some((r.take(n as int), r.skip(n as int)))
        } else {
            None
        },
        None => None,
    }
}

/// One record read off the front, with the rest.
pub open spec fn parse_record(s: Seq<u8>) -> Option<(RecordModel, Seq<u8>)> {
    match parse_bytes(s) {
        Some((p, r1)) => match parse_bytes(r1) {
            Some((h, r2)) => match parse_u64(r2) {
                Some((m, r3)) => Some(
                    (RecordModel { path: p, entry: EntryModel { hash: h, mtime: m } }, r3),
                ),
                None => None,
            },
            None => None,
        },
        None => None,
    }
}

/// `n` records read off the front, with the rest.
pub open spec fn parse_records(s: Seq<u8>, n: nat) -> Option<(Seq<RecordModel>, Seq<u8>)>
    decreases n,
{
    if n == 0 {
        Some((Seq::empty(), s))
    } else {
        match parse_record(s) {
            Some((r, rest)) => match parse_records(rest, (n - 1) as nat) {
                Some((rs, rest2)) => Some((seq![r] + rs, rest2)),
                None => None,
            },
            None => None,
        }
    }
}

/// The snapshot a byte string is the encoding of, if any: the decoder
/// accepts exactly the byte strings of the form [`spec_encode`] applied to a
/// well-formed snapshot, with nothing left over.
pub open spec fn spec_decode(s: Seq<u8>) -> Option<DataModel> {
    match parse_bytes(s) {
        Some((root, r1)) => match parse_u64(r1) {
            Some((n, r2)) => match parse_records(r2, n as nat) {
                Some((recs, rest)) => if rest.len() == 0 && unique_paths(recs) {
                    Some(DataModel { data: recs, root })
                } else {
                    None
                },
                None => None,
            },
            None => None,
        },
        None => None,
    }
}

/// Encoding one more record appends its encoding.
#[verifier::rlimit(50)]
pub proof fn lemma_enc_records_push(s: Seq<RecordModel>, r: RecordModel)
    ensures
        enc_records(s.push(r)) == enc_records(s) + enc_record(r),
    decreases s.len(),
{
    let t = s.push(r);
    if s.len() == 0 {
        assert(t.first() == r);
        assert(t.drop_first() =~= Seq::<RecordModel>::empty());
        assert(enc_records(t.drop_first()) == Seq::<u8>::empty());
        Seq::add_empty_right(enc_record(r), enc_records(t.drop_first()));
        Seq::add_empty_left(enc_records(s), enc_record(r));
    } else {
        assert(t.first() == s.first());
        assert(t.drop_first() =~= s.drop_first().push(r));
        lemma_enc_records_push(s.drop_first(), r);
        vstd::seq_lib::lemma_concat_associative(
            enc_record(s.first()),
            enc_records(s.drop_first()),
            enc_record(r),
        );
    }
}

/// Parsing an integer off its own encoding gives it back.
pub proof fn lemma_parse_u64_enc(v: u64, rest: Seq<u8>)
    ensures
        parse_u64(u64_le(v) + rest) == Some((v, rest)),
{
    lemma_u64_le_of(v);
    let s = u64_le(v) + rest;
    assert(s.take(8) =~= u64_le(v));
    assert(s.skip(8) =~= rest);
}

/// Parsing a length-prefixed byte string off its own encoding gives it
/// back.
pub proof fn lemma_parse_bytes_enc(b: Seq<u8>, rest: Seq<u8>)
    requires
        b.len() <= u64::MAX,
    ensures
        parse_bytes(enc_bytes(b) + rest) == Some((b, rest)),
{
    let n = b.len() as u64;
    assert(enc_bytes(b) + rest =~= u64_le(n) + (b + rest));
    lemma_parse_u64_enc(n, b + rest);
    assert((b + rest).take(n as int) =~= b);
    assert((b + rest).skip(n as int) =~= rest);
}

/// Parsing a record off its own encoding gives it back.
pub proof fn lemma_parse_record_enc(r: RecordModel, rest: Seq<u8>)
    requires
        r.path.len() <= u64::MAX,
        r.entry.hash.len() <= u64::MAX,
    ensures
        parse_record(enc_record(r) + rest) == Some((r, rest)),
{
    assert(enc_record(r) + rest =~= enc_bytes(r.path) + (enc_bytes(r.entry.hash) + (u64_le(
        r.entry.mtime,
    ) + rest)));
    lemma_parse_bytes_enc(r.path, enc_bytes(r.entry.hash) + (u64_le(r.entry.mtime) + rest));
    lemma_parse_bytes_enc(r.entry.hash, u64_le(r.entry.mtime) + rest);
    lemma_parse_u64_enc(r.entry.mtime, rest);
}

/// Parsing a record sequence off its own encoding gives it back.
#[verifier::rlimit(100)]
pub proof fn lemma_parse_records_enc(s: Seq<RecordModel>, rest: Seq<u8>)
    requires
        forall|i: int|
            0 <= i < s.len() ==> (#[trigger] s[i]).path.len() <= u64::MAX
                && s[i].entry.hash.len() <= u64::MAX,
    ensures
        parse_records(enc_records(s) + rest, s.len()) == Some((s, rest)),
    decreases s.len(),
{
    if s.len() == 0 {
        Seq::add_empty_left(enc_records(s), rest);
        assert(s =~= Seq::<RecordModel>::empty());
    } else {
        vstd::seq_lib::lemma_concat_associative(
            enc_record(s.first()),
            enc_records(s.drop_first()),
            rest,
        );
        lemma_parse_record_enc(s.first(), enc_records(s.drop_first()) + rest);
        assert(forall|i: int|
            0 <= i < s.drop_first().len() ==> s.drop_first()[i] == s[i + 1]);
        lemma_parse_records_enc(s.drop_first(), rest);
        assert(seq![s.first()] + s.drop_first() =~= s);
    }
}

/// Decoding the encoding of a well-formed snapshot gives the snapshot back.
pub proof fn lemma_decode_encode(d: DataModel)
    requires
        sizes_ok(d),
        unique_paths(d.data),
    ensures
        spec_decode(spec_encode(d)) == Some(d),
{
    let n = d.data.len() as u64;
    assert(spec_encode(d) =~= enc_bytes(d.root) + (u64_le(n) + (enc_records(d.data)
        + Seq::<u8>::empty())));
    lemma_parse_bytes_enc(d.root, u64_le(n) + (enc_records(d.data) + Seq::<u8>::empty()));
    lemma_parse_u64_enc(n, enc_records(d.data) + Seq::<u8>::empty());
    lemma_parse_records_enc(d.data, Seq::<u8>::empty());
}

/// Appends the eight little-endian bytes of `v`.
fn push_u64(out: &mut Vec<u8>, v: u64)
    ensures
        final(out)@ == old(out)@ + u64_le(v),
{
    out.push((v % 0x100) as u8);
    out.push(((v / 0x100) % 0x100) as u8);
    out.push(((v / 0x10000) % 0x100) as u8);
    out.push(((v / 0x1000000) % 0x100) as u8);
    out.push(((v / 0x100000000) % 0x100) as u8);
    out.push(((v / 0x10000000000) % 0x100) as u8);
    out.push(((v / 0x1000000000000) % 0x100) as u8);
    out.push(((v / 0x100000000000000) % 0x100) as u8);
    proof {
        reveal(u64_le);
        assert(out@ =~= old(out)@ + u64_le(v));
    }
}

/// Appends `b` prefixed by its length.
fn push_chunk(out: &mut Vec<u8>, b: &Vec<u8>)
    ensures
        final(out)@ == old(out)@ + enc_bytes(b@),
{
    push_u64(out, b.len() as u64);
    let ghost mid = out@;
    let n = b.len();
    let mut i: usize = 0;
    while i < n
        invariant
            n == b.len(),
            i <= n,
            out@ == mid + b@.take(i as int),
        decreases n - i,
    {
        proof {
            assert(b@.take(i + 1) =~= b@.take(i as int).push(b@[i as int]));
        }
        out.push(b[i]);
        proof {
            assert(mid + b@.take(i as int).push(b@[i as int]) =~= (mid + b@.take(
                i as int,
            )).push(b@[i as int]));
        }
        i = i + 1;
    }
    proof {
        assert(b@.take(n as int) =~= b@);
        assert(old(out)@ + u64_le(b.len() as u64) + b@ =~= old(out)@ + enc_bytes(b@));
    }
}

impl Data {
    /// The state-file bytes of this snapshot.
    pub fn encode(&self) -> (r: Vec<u8>)
        ensures
            r@ == spec_encode(self@),
    {
        let mut out: Vec<u8> = Vec::new();
        proof {
            assert(out@ + enc_bytes(self.root@) =~= enc_bytes(self.root@));
        }
        push_chunk(&mut out, &self.root);
        push_u64(&mut out, self.data.len() as u64);
        let ghost head = enc_bytes(self.root@) + u64_le(self.data.len() as u64);
        let ghost recs = self@.data;
        let n = self.data.len();
        let mut i: usize = 0;
        proof {
            assert(out@ =~= head + enc_records(recs.take(0)));
        }
        while i < n
            invariant
                n == self.data.len(),
                i <= n,
                recs == self@.data,
                head == enc_bytes(self.root@) + u64_le(self.data.len() as u64),
                out@ == head + enc_records(recs.take(i as int)),
            decreases n - i,
        {
            let ghost pre = out@;
            push_chunk(&mut out, &self.data[i].path);
            push_chunk(&mut out, &self.data[i].entry.hash);
            push_u64(&mut out, self.data[i].entry.mtime);
            proof {
                assert(out@ =~= pre + enc_record(recs[i as int]));
                assert(recs.take(i + 1) =~= recs.take(i as int).push(recs[i as int]));
                lemma_enc_records_push(recs.take(i as int), recs[i as int]);
                assert((head + enc_records(recs.take(i as int))) + enc_record(recs[i as int])
                    =~= head + (enc_records(recs.take(i as int)) + enc_record(recs[i as int])));
            }
            i = i + 1;
        }
        proof {
            assert(recs.take(n as int) =~= recs);
            assert(out@ =~= spec_encode(self@));
        }
        out
    }
}

/// Reads a 64-bit little-endian integer at `*pos`, advancing `*pos`.
fn read_u64(bytes: &Vec<u8>, pos: &mut usize) -> (r: Option<u64>)
    requires
        *old(pos) <= bytes@.len(),
    ensures
        *final(pos) <= bytes@.len(),
        match r {
            Some(v) => parse_u64(bytes@.skip(*old(pos) as int)) == Some(
                (v, bytes@.skip(*final(pos) as int)),
            ) && *final(pos) == *old(pos) + 8,
            None => parse_u64(bytes@.skip(*old(pos) as int)) is None && *final(pos) == *old(
                pos,
            ),
        },
{
    let ghost s = bytes@.skip(*pos as int);
    if bytes.len() - *pos < 8 {
        return None;
    }
    let p = *pos;
    let b0 = bytes[p] as u64;
    let b1 = bytes[p + 1] as u64;
    let b2 = bytes[p + 2] as u64;
    let b3 = bytes[p + 3] as u64;
    let b4 = bytes[p + 4] as u64;
    let b5 = bytes[p + 5] as u64;
    let b6 = bytes[p + 6] as u64;
    let b7 = bytes[p + 7] as u64;
    let v = b0 + b1 * 0x100 + b2 * 0x10000 + b3 * 0x1000000 + b4 * 0x100000000 + b5
        * 0x10000000000 + b6 * 0x1000000000000 + b7 * 0x100000000000000;
    *pos = p + 8;
    proof {
        reveal(u64_of_le);
        assert(s.take(8) =~= bytes@.subrange(p as int, p + 8));
        assert(u64_of_le(s.take(8)) == v);
        assert(s.skip(8) =~= bytes@.skip(p + 8));
    }
    Some(v)
}

/// The bytes at `[start, start + n)`.
fn copy_range(bytes: &Vec<u8>, start: usize, n: usize) -> (r: Vec<u8>)
    requires
        start + n <= bytes@.len(),
    ensures
        r@ == bytes@.subrange(start as int, start + n),
{
    let len = bytes.len();
    let mut r: Vec<u8> = Vec::new();
    let mut i: usize = 0;
    while i < n
        invariant
            len == bytes@.len(),
            start + n <= len,
            i <= n,
            r@ == bytes@.subrange(start as int, start + i),
        decreases n - i,
    {
        r.push(bytes[start + i]);
        proof {
            assert(r@ =~= bytes@.subrange(start as int, start + i + 1));
        }
        i = i + 1;
    }
    r
}

/// Reads a length-prefixed byte string at `*pos`, advancing `*pos`.
fn read_chunk(bytes: &Vec<u8>, pos: &mut usize) -> (r: Option<Vec<u8>>)
    requires
        *old(pos) <= bytes@.len(),
    ensures
        *final(pos) <= bytes@.len(),
        match r {
            Some(v) => parse_bytes(bytes@.skip(*old(pos) as int)) == Some(
                (v@, bytes@.skip(*final(pos) as int)),
            ),
            None => parse_bytes(bytes@.skip(*old(pos) as int)) is None,
        },
{
    let n = match read_u64(bytes, pos) {
        Some(n) => n,
        None => {
            return None;
        },
    };
    let rem = bytes.len() - *pos;
    if n > rem as u64 {
        return None;
    }
    let ln = n as usize;
    let v = copy_range(bytes, *pos, ln);
    let ghost mid = bytes@.skip(*pos as int);
    let start = *pos;
    *pos = *pos + ln;
    proof {
        assert(mid.take(n as int) =~= bytes@.subrange(start as int, start + ln));
        assert(mid.skip(n as int) =~= bytes@.skip(start + ln));
    }
    Some(v)
}

/// Reads one record at `*pos`, advancing `*pos`.
fn read_record(bytes: &Vec<u8>, pos: &mut usize) -> (r: Option<Record>)
    requires
        *old(pos) <= bytes@.len(),
    ensures
        *final(pos) <= bytes@.len(),
        match r {
            Some(rec) => parse_record(bytes@.skip(*old(pos) as int)) == Some(
                (rec@, bytes@.skip(*final(pos) as int)),
            ),
            None => parse_record(bytes@.skip(*old(pos) as int)) is None,
        },
{
    let path = match read_chunk(bytes, pos) {
        Some(p) => p,
        None => {
            return None;
        },
    };
    let hash = match read_chunk(bytes, pos) {
        Some(h) => h,
        None => {
            return None;
        },
    };
    let mtime = match read_u64(bytes, pos) {
        Some(m) => m,
        None => {
            return None;
        },
    };
    Some(Record { path, entry: Entry { hash, mtime } })
}

/// True exactly when no two records share a path.
fn check_unique(recs: &Vec<Record>) -> (r: bool)
    ensures
        r == unique_paths(views_of(recs@)),
{
    let n = recs.len();
    let mut i: usize = 0;
    while i < n
        invariant
            n == recs.len(),
            i <= n,
            forall|a: int, b: int|
                0 <= a < b < n && a < i ==> views_of(recs@)[a].path != views_of(recs@)[b].path,
        decreases n - i,
    {
        let mut j: usize = i + 1;
        while j < n
            invariant
                n == recs.len(),
                i < n,
                i < j <= n,
                forall|a: int, b: int|
                    0 <= a < b < n && a < i ==> views_of(recs@)[a].path != views_of(
                        recs@,
                    )[b].path,
                forall|b: int|
                    i < b < j ==> views_of(recs@)[i as int].path != views_of(recs@)[b].path,
            decreases n - j,
        {
            if bytes_eq(&recs[i].path, &recs[j].path) {
                proof {
                    assert(views_of(recs@)[i as int].path == views_of(recs@)[j as int].path);
                }
                return false;
            }
            j = j + 1;
        }
        i = i + 1;
    }
    true
}

/// The records read so far, prepended to an unfinished [`parse_records`]
/// result.
pub open spec fn cat_parsed(
    pre: Seq<RecordModel>,
    o: Option<(Seq<RecordModel>, Seq<u8>)>,
) -> Option<(Seq<RecordModel>, Seq<u8>)> {
    match o {
        Some((rs, rest)) => Some((pre + rs, rest)),
        None => None,
    }
}

/// The last step of decoding: the parsed records form a snapshot exactly
/// when nothing is left over and no path repeats.
pub open spec fn finish_decode(
    o: Option<(Seq<RecordModel>, Seq<u8>)>,
    root: Seq<u8>,
) -> Option<DataModel> {
    match o {
        Some((recs, rest)) => if rest.len() == 0 && unique_paths(recs) {
            Some(DataModel { data: recs, root })
        } else {
            None
        },
        None => None,
    }
}

impl Data {
    /// The snapshot held in the given state-file bytes: exactly the value
    /// that [`spec_decode`] assigns to them, or `DeserializeError` where it
    /// assigns none.
    pub fn decode(bytes: &Vec<u8>) -> (r: Result<Data, StateError>)
        ensures
            match spec_decode(bytes@) {
                Some(m) => r matches Ok(d) && d@ == m && d.wf(),
                None => r matches Err(e) && e == StateError::DeserializeError,
            },
    {
        let mut pos: usize = 0;
        proof {
            assert(bytes@.skip(0) =~= bytes@);
        }
        let root = match read_chunk(bytes, &mut pos) {
            Some(v) => v,
            None => {
                return Err(StateError::DeserializeError);
            },
        };
        let n = match read_u64(bytes, &mut pos) {
            Some(v) => v,
            None => {
                return Err(StateError::DeserializeError);
            },
        };
        let mut recs: Vec<Record> = Vec::new();
        let mut i: u64 = 0;
        proof {
            assert(views_of(recs@) =~= Seq::<RecordModel>::empty());
            Seq::add_empty_left(
                views_of(recs@),
                match parse_records(bytes@.skip(pos as int), n as nat) {
                    Some((rs, _)) => rs,
                    None => Seq::<RecordModel>::empty(),
                },
            );
        }
        while i < n
            invariant
                i <= n,
                pos <= bytes@.len(),
                recs@.len() == i,
                spec_decode(bytes@) == finish_decode(
                    cat_parsed(
                        views_of(recs@),
                        parse_records(bytes@.skip(pos as int), (n - i) as nat),
                    ),
                    root@,
                ),
            decreases n - i,
        {
            let rec = match read_record(bytes, &mut pos) {
                Some(v) => v,
                None => {
                    return Err(StateError::DeserializeError);
                },
            };
            let ghost pre = views_of(recs@);
            recs.push(rec);
            proof {
                assert(views_of(recs@) =~= pre.push(rec@));
                let after = parse_records(bytes@.skip(pos as int), (n - i - 1) as nat);
                match after {
                    Some((rs, rest)) => {
                        assert(pre + (seq![rec@] + rs) =~= pre.push(rec@) + rs);
                    },
                    None => {},
                }
            }
            i = i + 1;
        }
        if pos != bytes.len() {
            proof {
                assert(bytes@.skip(pos as int).len() != 0);
            }
            return Err(StateError::DeserializeError);
        }
        if !check_unique(&recs) {
            return Err(StateError::DeserializeError);
        }
        proof {
            assert(bytes@.skip(pos as int).len() == 0);
            Seq::add_empty_right(views_of(recs@), Seq::<RecordModel>::empty());
        }
        Ok(Data { data: recs, root })
    }
}

/// Decodes stored state and guards it against reuse under another root:
/// malformed bytes are `DeserializeError`, a snapshot recorded for a
/// different root is `RootMismatch`, and otherwise the stored snapshot is
/// returned as it was recorded.
pub fn load_state(bytes: &Vec<u8>, root: &Vec<u8>) -> (r: Result<Data, StateError>)
    ensures
        match spec_decode(bytes@) {
            None => r matches Err(e) && e == StateError::DeserializeError,
            Some(m) => if m.root != root@ {
                r matches Err(e) && e == StateError::RootMismatch
            } else {
                r matches Ok(d) && d@ == m && d.wf()
            },
        },
{
    let d = match Data::decode(bytes) {
        Ok(d) => d,
        Err(e) => {
            return Err(e);
        },
    };
    if !bytes_eq(&d.root, root) {
        return Err(StateError::RootMismatch);
    }
    Ok(d)
}

} // verus!
