//! The write-ahead log held as an in-memory byte image, and its replay model.
//!
//! `spec_replay` folds the log from offset zero, record by record, into the
//! index and the stale-byte count, exactly as `load_index` does at run time.
//! `acc_wf` captures what replay guarantees: every index entry resolves to a
//! Put record at its offset, and the counters are bounded by the bytes read.

use vstd::prelude::*;
use vstd::utf8::{decode_utf8, encode_utf8, valid_utf8};
use crate::codec::{
    decode_record_at, encode_entry, push_bytes, spec_decode, spec_encode, spec_record_len,
    spec_encode_oversized, model_payload, model_value_bytes, DecodeOut, EntryModel, WalEntry,
    WalError, WalRecord, HEADER_SIZE, MAX_RECORD_LEN,
};
use crate::codec::lemma_decode_prefix;
use crate::codec::lemma_decode_rec_bounds;
use crate::index::{IndexEntry, KeyIndex, ValuePointer};

verus! {

/// What replay knows of one live key: the decoded value, the expiry, and the
/// location of the record that carries them.
pub struct RecInfo {
    /// Decoded value characters.
    pub value: Seq<char>,
    /// Expiry seconds, if any.
    pub expires_at: Option<u64>,
    /// Byte offset of the record.
    pub offset: int,
    /// Total record length in bytes.
    pub record_len: int,
    /// Payload length in bytes.
    pub value_len: int,
}

/// State accumulated while replaying the log.
pub struct ReplayAcc {
    /// Live keys, by their UTF-8 bytes.
    pub index: Map<Seq<u8>, RecInfo>,
    /// Bytes of records superseded by later writes or deletes.
    pub stale: int,
}

/// Replay of an empty log.
pub open spec fn acc_empty() -> ReplayAcc {
    ReplayAcc { index: Map::empty(), stale: 0 }
}

/// Applies one decoded record to the accumulator: a Put supersedes the
/// previous entry of its key, a Delete removes it; the superseded record's
/// length is credited to `stale` in both cases.
pub open spec fn replay_step(acc: ReplayAcc, e: EntryModel, pos: int, l: int, vl: int) -> ReplayAcc {
    match e {
        EntryModel::Put { key, value, expires_at } => {
            let kb = encode_utf8(key);
            let stale2 = if acc.index.contains_key(kb) {
                acc.stale + acc.index[kb].record_len
            } else {
                acc.stale
            };
            ReplayAcc {
                index: acc.index.insert(
                    kb,
                    RecInfo { value, expires_at, offset: pos, record_len: l, value_len: vl },
                ),
                stale: stale2,
            }
        },
        EntryModel::Delete { key } => {
            let kb = encode_utf8(key);
            if acc.index.contains_key(kb) {
                ReplayAcc {
                    index: acc.index.remove(kb),
                    stale: acc.stale + acc.index[kb].record_len,
                }
            } else {
                acc
            }
        },
    }
}

/// Replays the log from byte `pos` onward, starting from `acc`.
pub open spec fn spec_replay_from(log: Seq<u8>, c: bool, pos: int, acc: ReplayAcc) -> Result<
    ReplayAcc,
    WalError,
>
    decreases log.len() - pos,
{
    if pos < 0 || pos >= log.len() {
        Ok(acc)
    } else {
        match spec_decode(log.skip(pos), c) {
            DecodeOut::End => Ok(acc),
            DecodeOut::Fail(e) => Err(e),
            DecodeOut::Rec { entry, record_len, value_len } => if record_len < 1 || pos
                + record_len > log.len() {
                Err(WalError::UnexpectedEof)
            } else {
                spec_replay_from(
                    log,
                    c,
                    pos + record_len,
                    replay_step(acc, entry, pos, record_len, value_len),
                )
            },
        }
    }
}

/// Replays the whole log from scratch.
pub open spec fn spec_replay(log: Seq<u8>, c: bool) -> Result<ReplayAcc, WalError> {
    spec_replay_from(log, c, 0, acc_empty())
}

/// Sum of the record lengths of all live entries.
pub open spec fn live_sum(m: Map<Seq<u8>, RecInfo>) -> int
    decreases m.dom().len(),
    when m.dom().finite()
{
    if m.dom().len() == 0 {
        0
    } else {
        let kb = m.dom().choose();
        m[kb].record_len + live_sum(m.remove(kb))
    }
}

/// `live_sum` can be split off at any member, not just the chosen one.
pub proof fn lemma_live_sum_remove(m: Map<Seq<u8>, RecInfo>, kb: Seq<u8>)
    requires
        m.dom().finite(),
        m.contains_key(kb),
    ensures
        live_sum(m) == m[kb].record_len + live_sum(m.remove(kb)),
    decreases m.dom().len(),
{
    let c0 = m.dom().choose();
    assert(m.dom().contains(c0));
    if c0 == kb {
    } else {
        lemma_live_sum_remove(m.remove(c0), kb);
        lemma_live_sum_remove(m.remove(kb), c0);
        assert(m.remove(c0).remove(kb) =~= m.remove(kb).remove(c0));
        assert(live_sum(m) == m[c0].record_len + live_sum(m.remove(c0)));
    }
}

/// A sum of non-negative record lengths is non-negative.
pub proof fn lemma_live_sum_nonneg(m: Map<Seq<u8>, RecInfo>)
    requires
        m.dom().finite(),
        forall|kb: Seq<u8>| #[trigger] m.contains_key(kb) ==> m[kb].record_len >= 0,
    ensures
        live_sum(m) >= 0,
    decreases m.dom().len(),
{
    if m.dom().len() > 0 {
        let kb = m.dom().choose();
        assert(m.dom().contains(kb));
        lemma_live_sum_nonneg(m.remove(kb));
    }
}

/// How `live_sum` changes under insertion.
pub proof fn lemma_live_sum_insert(m: Map<Seq<u8>, RecInfo>, kb: Seq<u8>, ri: RecInfo)
    requires
        m.dom().finite(),
    ensures
        live_sum(m.insert(kb, ri)) == if m.contains_key(kb) {
            live_sum(m) - m[kb].record_len + ri.record_len
        } else {
            live_sum(m) + ri.record_len
        },
{
    let m2 = m.insert(kb, ri);
    lemma_live_sum_remove(m2, kb);
    if m.contains_key(kb) {
        assert(m2.remove(kb) =~= m.remove(kb));
        lemma_live_sum_remove(m, kb);
    } else {
        assert(m2.remove(kb) =~= m);
    }
}

/// Everything replay guarantees of one index entry at replay position `pos`.
pub open spec fn acc_entry_wf(log: Seq<u8>, c: bool, pos: int, kb: Seq<u8>, ri: RecInfo) -> bool {
    &&& 0 <= ri.offset
    &&& ri.offset + ri.record_len <= pos
    &&& HEADER_SIZE <= ri.record_len <= MAX_RECORD_LEN
    &&& 0 <= ri.value_len
    &&& valid_utf8(kb)
    &&& encode_utf8(decode_utf8(kb)) == kb
    &&& spec_decode(log.skip(ri.offset), c) == (DecodeOut::Rec {
        entry: EntryModel::Put {
            key: decode_utf8(kb),
            value: ri.value,
            expires_at: ri.expires_at,
        },
        record_len: ri.record_len,
        value_len: ri.value_len,
    })
}

/// Everything replay guarantees of the accumulator at position `pos`.
pub open spec fn acc_wf(log: Seq<u8>, c: bool, pos: int, acc: ReplayAcc) -> bool {
    &&& 0 <= pos <= log.len()
    &&& 0 <= acc.stale
    &&& acc.index.dom().finite()
    &&& acc.stale + live_sum(acc.index) <= pos
    &&& forall|kb: Seq<u8>| #[trigger]
        acc.index.contains_key(kb) ==> acc_entry_wf(log, c, pos, kb, acc.index[kb])
}

/// The bound `stale + record_len of any member <= pos` follows from `acc_wf`.
pub proof fn lemma_acc_member_bound(log: Seq<u8>, c: bool, pos: int, acc: ReplayAcc, kb: Seq<u8>)
    requires
        acc_wf(log, c, pos, acc),
        acc.index.contains_key(kb),
    ensures
        acc.stale + acc.index[kb].record_len <= pos,
        live_sum(acc.index) >= acc.index[kb].record_len,
    {
    lemma_live_sum_remove(acc.index, kb);
    assert forall|k2: Seq<u8>| #[trigger]
        acc.index.remove(kb).contains_key(k2) implies acc.index.remove(kb)[k2].record_len
        >= 0 by {
        assert(acc.index.contains_key(k2));
    }
    lemma_live_sum_nonneg(acc.index.remove(kb));
}

/// Replaying a log that satisfies `acc_wf` keeps `acc_wf`, ending at the
/// log's end.
pub proof fn lemma_replay_from_wf(log: Seq<u8>, c: bool, pos: int, acc: ReplayAcc, res: ReplayAcc)
    requires
        acc_wf(log, c, pos, acc),
        spec_replay_from(log, c, pos, acc) == Ok::<ReplayAcc, WalError>(res),
    ensures
        acc_wf(log, c, log.len() as int, res),
    decreases log.len() - pos,
{
    broadcast use vstd::utf8::encode_utf8_valid_utf8, vstd::utf8::encode_utf8_decode_utf8;

    if pos >= log.len() {
        assert(pos == log.len());
    } else {
        match spec_decode(log.skip(pos), c) {
            DecodeOut::End => {
                assert(log.skip(pos).len() > 0);
                assert(false);
            },
            DecodeOut::Fail(_) => {
                assert(false);
            },
            DecodeOut::Rec { entry, record_len, value_len } => {
                lemma_decode_rec_bounds(log.skip(pos), c, entry, record_len, value_len);
                let acc2 = replay_step(acc, entry, pos, record_len, value_len);
                let pos2 = pos + record_len;
                assert(acc_wf(log, c, pos2, acc2)) by {
                    lemma_step_wf(log, c, pos, acc, entry, record_len, value_len);
                }
                lemma_replay_from_wf(log, c, pos2, acc2, res);
            },
        }
    }
}

/// One replay step preserves `acc_wf`, advancing the position past the record.
proof fn lemma_step_wf(log: Seq<u8>, c: bool, pos: int, acc: ReplayAcc, e: EntryModel, l: int, vl: int)
    requires
        acc_wf(log, c, pos, acc),
        pos < log.len(),
        spec_decode(log.skip(pos), c) == (DecodeOut::Rec { entry: e, record_len: l, value_len: vl }),
        pos + l <= log.len(),
    ensures
        acc_wf(log, c, pos + l, replay_step(acc, e, pos, l, vl)),
{
    broadcast use vstd::utf8::encode_utf8_valid_utf8, vstd::utf8::encode_utf8_decode_utf8;

    lemma_decode_rec_bounds(log.skip(pos), c, e, l, vl);
    let acc2 = replay_step(acc, e, pos, l, vl);
    match e {
        EntryModel::Put { key, value, expires_at } => {
            let kb = encode_utf8(key);
            let ri = RecInfo { value, expires_at, offset: pos, record_len: l, value_len: vl };
            lemma_live_sum_insert(acc.index, kb, ri);
            if acc.index.contains_key(kb) {
                lemma_acc_member_bound(log, c, pos, acc, kb);
            }
            assert(acc_entry_wf(log, c, pos + l, kb, ri)) by {
                assert(decode_utf8(kb) == key);
            }
            assert forall|k2: Seq<u8>| #[trigger]
                acc2.index.contains_key(k2) implies acc_entry_wf(
                log,
                c,
                pos + l,
                k2,
                acc2.index[k2],
            ) by {
                if k2 != kb {
                    assert(acc.index.contains_key(k2));
                    assert(acc_entry_wf(log, c, pos, k2, acc.index[k2]));
                }
            }
        },
        EntryModel::Delete { key } => {
            let kb = encode_utf8(key);
            if acc.index.contains_key(kb) {
                lemma_acc_member_bound(log, c, pos, acc, kb);
                lemma_live_sum_remove(acc.index, kb);
            }
            assert forall|k2: Seq<u8>| #[trigger]
                acc2.index.contains_key(k2) implies acc_entry_wf(
                log,
                c,
                pos + l,
                k2,
                acc2.index[k2],
            ) by {
                assert(acc.index.contains_key(k2));
                assert(acc_entry_wf(log, c, pos, k2, acc.index[k2]));
            }
        },
    }
}

/// Appending one whole record to the log extends its replay by exactly one
/// step, applied at the old end of the log.
pub proof fn lemma_replay_from_append(
    log: Seq<u8>,
    ext: Seq<u8>,
    c: bool,
    pos: int,
    acc: ReplayAcc,
    res: ReplayAcc,
    e: EntryModel,
    vl: int,
)
    requires
        0 <= pos <= log.len(),
        spec_replay_from(log, c, pos, acc) == Ok::<ReplayAcc, WalError>(res),
        spec_decode(ext, c) == (DecodeOut::Rec {
            entry: e,
            record_len: ext.len() as int,
            value_len: vl,
        }),
        ext.len() >= 1,
    ensures
        spec_replay_from(log + ext, c, pos, acc) == Ok::<ReplayAcc, WalError>(
            replay_step(res, e, log.len() as int, ext.len() as int, vl),
        ),
    decreases log.len() - pos,
{
    let log2 = log + ext;
    if pos == log.len() {
        assert(res == acc);
        assert(log2.skip(pos) =~= ext);
        assert(pos + ext.len() == log2.len());
        assert(spec_replay_from(log2, c, pos + ext.len() as int, replay_step(acc, e, pos, ext.len() as int, vl))
            == Ok::<ReplayAcc, WalError>(replay_step(acc, e, pos, ext.len() as int, vl)));
    } else {
        match spec_decode(log.skip(pos), c) {
            DecodeOut::End => {
                assert(log.skip(pos).len() > 0);
                assert(false);
            },
            DecodeOut::Fail(_) => {
                assert(false);
            },
            DecodeOut::Rec { entry, record_len, value_len } => {
                lemma_decode_rec_bounds(log.skip(pos), c, entry, record_len, value_len);
                assert(log2.skip(pos) =~= log.skip(pos) + ext);
                assert(log2.skip(pos).subrange(0, record_len) =~= log.skip(pos).subrange(
                    0,
                    record_len,
                ));
                lemma_decode_prefix(
                    log.skip(pos),
                    log2.skip(pos),
                    c,
                    entry,
                    record_len,
                    value_len,
                );
                lemma_replay_from_append(
                    log,
                    ext,
                    c,
                    pos + record_len,
                    replay_step(acc, entry, pos, record_len, value_len),
                    res,
                    e,
                    vl,
                );
            },
        }
    }
}

/// The executable index mirrors the replay accumulator: same keys, and for
/// each key the pointer and expiry that replay derived.
pub open spec fn index_matches_acc(ix: Map<Seq<u8>, IndexEntry>, acc: ReplayAcc) -> bool {
    &&& forall|kb: Seq<u8>| #[trigger] ix.contains_key(kb) ==> acc.index.contains_key(kb)
    &&& forall|kb: Seq<u8>| #[trigger] acc.index.contains_key(kb) ==> {
        &&& ix.contains_key(kb)
        &&& ix[kb].pointer.offset as int == acc.index[kb].offset
        &&& ix[kb].pointer.record_len as int == acc.index[kb].record_len
        &&& ix[kb].pointer.value_len as int == acc.index[kb].value_len
        &&& ix[kb].expires_at == acc.index[kb].expires_at
    }
}

/// Concatenation of the encodings of a list of Put entries.
pub open spec fn cat_encodes(s: Seq<(String, String, Option<u64>)>, c: bool) -> Seq<u8>
    decreases s.len(),
{
    if s.len() == 0 {
        Seq::empty()
    } else {
        cat_encodes(s.drop_last(), c) + spec_encode(put_model(s.last()), c)
    }
}

/// Model of the Put entry a rewrite writes for one retained triple.
pub open spec fn put_model(t: (String, String, Option<u64>)) -> EntryModel {
    EntryModel::Put { key: t.0@, value: t.1@, expires_at: t.2 }
}

/// The sync decision of the log writer: without a sync interval every append
/// is synced; with one, only once the elapsed time has reached the interval.
pub fn should_sync(sync_interval: Option<u64>, elapsed: u64) -> (r: bool)
    ensures
        r == match sync_interval {
            None => true,
            Some(i) => elapsed >= i,
        },
{
    match sync_interval {
        None => true,
        Some(i) => elapsed >= i,
    }
}

/// Write-ahead log held as an in-memory byte image. Callers that want
/// durability persist the image and hand it back when reopening.
pub struct Wal {
    log: Vec<u8>,
    sync_interval: Option<u64>,
    compression: bool,
}

impl Wal {
    /// The byte image of the log.
    pub closed spec fn log_bytes(&self) -> Seq<u8> {
        self.log@
    }

    /// Whether values are Snappy-compressed on disk.
    pub closed spec fn compression_on(&self) -> bool {
        self.compression
    }

    /// The configured sync interval.
    pub closed spec fn sync_interval_of(&self) -> Option<u64> {
        self.sync_interval
    }

    /// Opens the log over the given byte image.
    pub fn open(log: Vec<u8>, sync_interval: Option<u64>, compression: bool) -> (r: Wal)
        ensures
            r.log_bytes() == log@,
            r.sync_interval_of() == sync_interval,
            r.compression_on() == compression,
    {
        Wal { log, sync_interval, compression }
    }

    /// Current size of the log in bytes.
    pub fn size(&self) -> (r: u64)
        ensures
            r == self.log_bytes().len(),
    {
        self.log.len() as u64
    }

    /// The raw bytes of the log, for persistence.
    pub fn bytes(&self) -> (r: &Vec<u8>)
        ensures
            r@ == self.log_bytes(),
    {
        &self.log
    }

    /// Appends an entry to the log and returns a pointer describing it.
    pub fn append(&mut self, entry: &WalEntry) -> (r: Result<ValuePointer, WalError>)
        ensures
            final(self).compression_on() == old(self).compression_on(),
            final(self).sync_interval_of() == old(self).sync_interval_of(),
            r is Ok <==> !spec_encode_oversized(entry@, old(self).compression_on()),
            r is Err ==> *final(self) == *old(self) && r == Err::<ValuePointer, WalError>(
                WalError::RecordTooLarge,
            ),
            r matches Ok(ptr) ==> {
                let c = old(self).compression_on();
                let enc = spec_encode(entry@, c);
                &&& final(self).log_bytes() == old(self).log_bytes() + enc
                &&& ptr.offset as int == old(self).log_bytes().len()
                &&& ptr.record_len as int == enc.len() == spec_record_len(entry@, c)
                &&& ptr.value_len as int == model_payload(entry@, c).len()
                &&& spec_decode(enc, c) == (DecodeOut::Rec {
                    entry: entry@,
                    record_len: enc.len() as int,
                    value_len: ptr.value_len as int,
                })
            },
    {
        let buf = match encode_entry(entry, self.compression) {
            Ok(buf) => buf,
            Err(e) => {
                return Err(e);
            },
        };
        let key_len: usize = match entry {
            WalEntry::Put { key, .. } => key.as_str().len(),
            WalEntry::Delete { key } => key.as_str().len(),
        };
        let offset = self.log.len() as u64;
        let record_len = buf.len() as u32;
        let value_len = (record_len as u64 - HEADER_SIZE as u64 - key_len as u64) as u32;
        push_bytes(&mut self.log, &buf);
        Ok(ValuePointer::new(offset, value_len, record_len))
    }

    /// Reads the record stored at the provided pointer.
    pub fn read_record(&self, pointer: ValuePointer) -> (r: Result<WalRecord, WalError>)
        ensures
            pointer.offset < self.log_bytes().len() ==> crate::codec::decode_matches(
                self.log_bytes().skip(pointer.offset as int),
                self.compression_on(),
                r,
                pointer.offset as int,
            ),
            pointer.offset >= self.log_bytes().len() ==> r == Err::<WalRecord, WalError>(
                WalError::UnexpectedEof,
            ),
    {
        if pointer.offset >= self.log.len() as u64 {
            return Err(WalError::UnexpectedEof);
        }
        decode_record_at(&self.log, pointer.offset as usize, self.compression)
    }

    /// Loads the index by replaying the log from scratch, returning it with
    /// the stale-byte total.
    pub fn load_index(&self) -> (r: Result<(KeyIndex, u64), WalError>)
        ensures
            match spec_replay(self.log_bytes(), self.compression_on()) {
                Ok(acc) => match r {
                    Ok(p) => {
                        &&& p.0.wf()
                        &&& index_matches_acc(p.0@, acc)
                        &&& p.1 == acc.stale
                        &&& acc_wf(
                            self.log_bytes(),
                            self.compression_on(),
                            self.log_bytes().len() as int,
                            acc,
                        )
                    },
                    Err(_) => false,
                },
                Err(e) => r == Err::<(KeyIndex, u64), WalError>(e),
            },
    {
        broadcast use vstd::utf8::encode_utf8_valid_utf8, vstd::utf8::encode_utf8_decode_utf8;

        let ghost logv = self.log@;
        let ghost c = self.compression;
        let n = self.log.len();
        let mut ix = KeyIndex::new();
        let mut stale: u64 = 0;
        let mut pos: usize = 0;
        let ghost mut acc = acc_empty();
        while pos < n
            invariant
                n == logv.len(),
                logv == self.log@,
                c == self.compression,
                pos <= n,
                acc_wf(logv, c, pos as int, acc),
                spec_replay_from(logv, c, pos as int, acc) == spec_replay(logv, c),
                ix.wf(),
                index_matches_acc(ix@, acc),
                stale == acc.stale,
            decreases n - pos,
        {
            let rec = match decode_record_at(&self.log, pos, self.compression) {
                Ok(rec) => rec,
                Err(e) => {
                    proof {
                        assert(spec_replay_from(logv, c, pos as int, acc) == Err::<
                            ReplayAcc,
                            WalError,
                        >(e));
                    }
                    return Err(e);
                },
            };
            let ghost d = spec_decode(logv.skip(pos as int), c);
            let l = rec.record_len as usize;
            let value_len = rec.value_len;
            let record_len = rec.record_len;
            proof {
                lemma_decode_rec_bounds(
                    logv.skip(pos as int),
                    c,
                    rec.entry@,
                    l as int,
                    value_len as int,
                );
            }
            let ghost acc2 = replay_step(acc, rec.entry@, pos as int, l as int, value_len as int);
            proof {
                lemma_step_wf(logv, c, pos as int, acc, rec.entry@, l as int, value_len as int);
            }
            match rec.entry {
                WalEntry::Put { key, expires_at, .. } => {
                    let kb = key.as_str().as_bytes_vec();
                    let ghost kbv = kb@;
                    if let Some(prev) = ix.get(&kb) {
                        proof {
                            lemma_acc_member_bound(logv, c, pos as int, acc, kbv);
                        }
                        stale = stale + prev.pointer.record_len as u64;
                    }
                    ix.insert(
                        kb,
                        IndexEntry {
                            pointer: ValuePointer::new(pos as u64, value_len, record_len),
                            expires_at,
                        },
                    );
                },
                WalEntry::Delete { key } => {
                    let kb = key.as_str().as_bytes_vec();
                    let ghost kbv = kb@;
                    if let Some(prev) = ix.remove(&kb) {
                        proof {
                            lemma_acc_member_bound(logv, c, pos as int, acc, kbv);
                        }
                        stale = stale + prev.pointer.record_len as u64;
                    }
                },
            }
            proof {
                acc = acc2;
            }
            pos = pos + l;
        }
        proof {
            assert(spec_replay(logv, c) == Ok::<ReplayAcc, WalError>(acc));
        }
        Ok((ix, stale))
    }

    /// Replaces the log with one that holds exactly the given entries, as Put
    /// records in order, and returns the index of the new log. The keys must
    /// be pairwise distinct. The log is only replaced when every entry
    /// encodes; on failure it is left untouched.
    #[verifier::rlimit(60)]
    pub fn rewrite(&mut self, entries: &Vec<(String, String, Option<u64>)>) -> (r: Result<
        KeyIndex,
        WalError,
    >)
        requires
            forall|i: int, j: int|
                0 <= i < j < entries@.len() ==> entries@[i].0@ != entries@[j].0@,
        ensures
            final(self).compression_on() == old(self).compression_on(),
            final(self).sync_interval_of() == old(self).sync_interval_of(),
            r matches Err(e) ==> {
                &&& *final(self) == *old(self)
                &&& e == WalError::RecordTooLarge
                &&& exists|i: int|
                    0 <= i < entries@.len() && spec_encode_oversized(
                        put_model(entries@[i]),
                        old(self).compression_on(),
                    )
            },
            (forall|i: int|
                0 <= i < entries@.len() ==> !spec_encode_oversized(
                    put_model(entries@[i]),
                    old(self).compression_on(),
                )) ==> r is Ok,
            r matches Ok(ix) ==> {
                let c = old(self).compression_on();
                &&& final(self).log_bytes() == cat_encodes(entries@, c)
                &&& ix.wf()
                &&& match spec_replay(final(self).log_bytes(), c) {
                    Ok(acc) => {
                        &&& acc.stale == 0
                        &&& index_matches_acc(ix@, acc)
                        &&& live_sum(acc.index) == final(self).log_bytes().len()
                        &&& forall|kb: Seq<u8>| #[trigger]
                            acc.index.contains_key(kb) <==> exists|j: int|
                                0 <= j < entries@.len() && kb == encode_utf8(entries@[j].0@)
                        &&& forall|j: int|
                            0 <= j < entries@.len() ==> {
                                let ri = acc.index[encode_utf8(#[trigger] entries@[j].0@)];
                                &&& ri.value == entries@[j].1@
                                &&& ri.expires_at == entries@[j].2
                                &&& ri.record_len == spec_record_len(put_model(entries@[j]), c)
                            }
                        &&& forall|j1: int, j2: int|
                            0 <= j1 < j2 < entries@.len() ==> acc.index[encode_utf8(
                                #[trigger] entries@[j1].0@,
                            )].offset < acc.index[encode_utf8(#[trigger] entries@[j2].0@)].offset
                    },
                    Err(_) => false,
                }
            },
    {
        broadcast use vstd::utf8::encode_utf8_valid_utf8, vstd::utf8::encode_utf8_decode_utf8;

        let ghost c = self.compression;
        let ghost ent = entries@;
        let n = entries.len();
        let mut new_log: Vec<u8> = Vec::new();
        let mut ix = KeyIndex::new();
        let ghost mut acc = acc_empty();
        let mut i: usize = 0;
        while i < n
            invariant
                n == ent.len(),
                ent == entries@,
                c == self.compression,
                forall|a: int, b: int| 0 <= a < b < ent.len() ==> ent[a].0@ != ent[b].0@,
                i <= n,
                new_log@ == cat_encodes(ent.subrange(0, i as int), c),
                spec_replay(new_log@, c) == Ok::<ReplayAcc, WalError>(acc),
                acc.stale == 0,
                acc.index.dom().finite(),
                live_sum(acc.index) == new_log@.len(),
                forall|kb: Seq<u8>| #[trigger]
                    acc.index.contains_key(kb) <==> exists|j: int|
                        0 <= j < i && kb == encode_utf8(ent[j].0@),
                forall|j: int|
                    0 <= j < i ==> {
                        let ri = acc.index[encode_utf8(#[trigger] ent[j].0@)];
                        &&& ri.value == ent[j].1@
                        &&& ri.expires_at == ent[j].2
                        &&& ri.record_len == spec_record_len(put_model(ent[j]), c)
                    },
                forall|j: int|
                    0 <= j < i ==> acc.index[encode_utf8(#[trigger] ent[j].0@)].offset
                        < new_log@.len(),
                forall|j1: int, j2: int|
                    0 <= j1 < j2 < i ==> acc.index[encode_utf8(#[trigger] ent[j1].0@)].offset
                        < acc.index[encode_utf8(#[trigger] ent[j2].0@)].offset,
                ix.wf(),
                index_matches_acc(ix@, acc),
            decreases n - i,
        {
            let t = &entries[i];
            let e = WalEntry::Put { key: t.0.clone(), value: t.1.clone(), expires_at: t.2 };
            proof {
                assert(e@ == put_model(ent[i as int]));
            }
            let enc = match encode_entry(&e, self.compression) {
                Ok(enc) => enc,
                Err(err) => {
                    return Err(err);
                },
            };
            let key_len = t.0.as_str().len();
            let off = new_log.len() as u64;
            let record_len = enc.len() as u32;
            let value_len = (record_len as u64 - HEADER_SIZE as u64 - key_len as u64) as u32;
            let ghost pre_log = new_log@;
            let ghost vl = model_payload(e@, c).len() as int;
            push_bytes(&mut new_log, &enc);
            proof {
                lemma_replay_from_append(pre_log, enc@, c, 0, acc_empty(), acc, e@, vl);
                let kb = encode_utf8(ent[i as int].0@);
                assert(!acc.index.contains_key(kb)) by {
                    if acc.index.contains_key(kb) {
                        let j = choose|j: int| 0 <= j < i && kb == encode_utf8(ent[j].0@);
                        lemma_encode_utf8_injective(ent[j].0@, ent[i as int].0@);
                        assert(false);
                    }
                }
                lemma_live_sum_insert(
                    acc.index,
                    kb,
                    RecInfo {
                        value: ent[i as int].1@,
                        expires_at: ent[i as int].2,
                        offset: pre_log.len() as int,
                        record_len: enc@.len() as int,
                        value_len: vl,
                    },
                );
                let pre_acc = acc;
                acc = replay_step(acc, e@, pre_log.len() as int, enc@.len() as int, vl);
                assert(ent.subrange(0, i + 1).drop_last() =~= ent.subrange(0, i as int));
                assert(ent.subrange(0, i + 1).last() == ent[i as int]);
                assert(new_log@ == cat_encodes(ent.subrange(0, i + 1), c));
                assert(acc.index[kb].offset == pre_log.len() as int);
                assert forall|j: int|
                    0 <= j < i + 1 implies acc.index[encode_utf8(#[trigger] ent[j].0@)].offset
                    < new_log@.len() by {
                    if j < i {
                        assert(pre_acc.index.contains_key(encode_utf8(ent[j].0@)));
                        assert(encode_utf8(ent[j].0@) != kb);
                        assert(acc.index[encode_utf8(ent[j].0@)] == pre_acc.index[encode_utf8(
                            ent[j].0@,
                        )]);
                    }
                }
                assert forall|j1: int, j2: int|
                    0 <= j1 < j2 < i + 1 implies acc.index[encode_utf8(
                    #[trigger] ent[j1].0@,
                )].offset < acc.index[encode_utf8(#[trigger] ent[j2].0@)].offset by {
                    assert(pre_acc.index.contains_key(encode_utf8(ent[j1].0@)));
                    assert(encode_utf8(ent[j1].0@) != kb);
                    if j2 < i {
                        assert(pre_acc.index.contains_key(encode_utf8(ent[j2].0@)));
                        assert(encode_utf8(ent[j2].0@) != kb);
                    } else {
                        assert(pre_acc.index[encode_utf8(ent[j1].0@)].offset < pre_log.len());
                    }
                }
            }
            let kb_exec = t.0.as_str().as_bytes_vec();
            ix.insert(
                kb_exec,
                IndexEntry {
                    pointer: ValuePointer::new(off, value_len, record_len),
                    expires_at: t.2,
                },
            );
            i = i + 1;
            proof {
                assert forall|kb2: Seq<u8>| #[trigger]
                    acc.index.contains_key(kb2) implies exists|j: int|
                    0 <= j < i && kb2 == encode_utf8(ent[j].0@) by {
                    if kb2 == encode_utf8(ent[i - 1].0@) {
                        assert(0 <= i - 1 < i && kb2 == encode_utf8(ent[i - 1].0@));
                    }
                }
            }
        }
        proof {
            assert(ent.subrange(0, n as int) =~= ent);
        }
        self.log = new_log;
        Ok(ix)
    }
}

/// UTF-8 encoding is injective on character sequences.
pub proof fn lemma_encode_utf8_injective(a: Seq<char>, b: Seq<char>)
    requires
        encode_utf8(a) == encode_utf8(b),
    ensures
        a == b,
{
    vstd::utf8::encode_utf8_decode_utf8(a);
    vstd::utf8::encode_utf8_decode_utf8(b);
}

/// Replaying a whole log successfully yields a well-formed accumulator.
pub proof fn lemma_replay_wf(log: Seq<u8>, c: bool, res: ReplayAcc)
    requires
        spec_replay(log, c) == Ok::<ReplayAcc, WalError>(res),
    ensures
        acc_wf(log, c, log.len() as int, res),
{
    lemma_replay_from_wf(log, c, 0, acc_empty(), res);
}

} // verus!
