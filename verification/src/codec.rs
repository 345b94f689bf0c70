//! Byte layout of write-ahead-log records: a fixed 18-byte header followed by
//! the key bytes and the value payload, all multi-byte integers little-endian.
//!
//! `spec_encode` and `spec_decode` are the mathematical description of the
//! format; the executable `encode_entry` and `decode_record_at` are proved
//! against them, and `lemma_codec_round_trip` shows that decoding inverts
//! encoding.

use vstd::prelude::*;
use vstd::bytes::{
    spec_u32_from_le_bytes, spec_u32_to_le_bytes, spec_u64_from_le_bytes, spec_u64_to_le_bytes,
    u32_from_le_bytes, u64_from_le_bytes,
};
use vstd::slice::slice_subrange;
use vstd::utf8::{decode_utf8, encode_utf8, valid_utf8};

verus! {

/// Size in bytes of the fixed record header:
/// opcode (1) + key length (4) + value length (4) + TTL flag (1) + TTL seconds (8).
pub const HEADER_SIZE: usize = 18;

/// Largest representable record length: `record_len` is stored as a `u32`.
pub const MAX_RECORD_LEN: u64 = 0xFFFF_FFFF;

/// Error raised by the codec, the log replay, or the engine.
#[derive(Clone, Copy, Debug, PartialEq, Eq, Structural)]
pub enum WalError {
    /// The opcode byte of a record is neither the Put nor the Delete code.
    UnknownOpcode,
    /// The key bytes of a record are not valid UTF-8.
    InvalidUtf8Key,
    /// The value bytes of a record are not valid UTF-8.
    InvalidUtf8Value,
    /// A Delete record carries a non-empty value payload.
    DeletePayload,
    /// The value payload could not be decompressed.
    CorruptPayload,
    /// The log ends before the record announced by the header does.
    UnexpectedEof,
    /// Header, key, and payload together exceed the `u32` record-length bound.
    RecordTooLarge,
}

impl WalError {
    /// Human-readable description, for callers that print errors.
    pub fn message(&self) -> &'static str {
        match self {
            WalError::UnknownOpcode => "unknown WAL opcode",
            WalError::InvalidUtf8Key => "invalid utf-8 key",
            WalError::InvalidUtf8Value => "invalid utf-8 value",
            WalError::DeletePayload => "delete record has unexpected payload",
            WalError::CorruptPayload => "corrupt compressed payload",
            WalError::UnexpectedEof => "unexpected end of log",
            WalError::RecordTooLarge => "record exceeds maximum encodable size",
        }
    }
}

/// Operation stored in a record.
#[derive(Clone, Copy, Debug, PartialEq, Eq, Structural)]
pub enum WalOp {
    /// The record stores a value for its key.
    Put,
    /// The record is a tombstone for its key.
    Delete,
}

/// Opcode byte written for the operation.
pub open spec fn spec_op_byte(op: WalOp) -> u8 {
    match op {
        WalOp::Put => 1,
        WalOp::Delete => 2,
    }
}

impl WalOp {
    /// Parses an opcode byte.
    pub fn from_byte(byte: u8) -> (r: Result<WalOp, WalError>)
        ensures
            byte == 1 ==> r == Ok::<WalOp, WalError>(WalOp::Put),
            byte == 2 ==> r == Ok::<WalOp, WalError>(WalOp::Delete),
            byte != 1 && byte != 2 ==> r == Err::<WalOp, WalError>(WalError::UnknownOpcode),
    {
        match byte {
            1 => Ok(WalOp::Put),
            2 => Ok(WalOp::Delete),
            _ => Err(WalError::UnknownOpcode),
        }
    }
}

/// Log entry as manipulated by the engine. Expiry is an absolute wall-clock
/// instant in whole seconds since the Unix epoch, or `None` for no expiry.
#[derive(Clone, Debug, PartialEq, Eq)]
pub enum WalEntry {
    /// Stores the provided UTF-8 value for the key.
    Put { key: String, value: String, expires_at: Option<u64> },
    /// Removes the key from the store.
    Delete { key: String },
}

/// Mathematical model of a log entry: character sequences instead of strings.
pub enum EntryModel {
    /// Model of a Put entry.
    Put { key: Seq<char>, value: Seq<char>, expires_at: Option<u64> },
    /// Model of a Delete entry.
    Delete { key: Seq<char> },
}

impl View for WalEntry {
    type V = EntryModel;

    open spec fn view(&self) -> EntryModel {
        match self {
            WalEntry::Put { key, value, expires_at } => EntryModel::Put {
                key: key@,
                value: value@,
                expires_at: *expires_at,
            },
            WalEntry::Delete { key } => EntryModel::Delete { key: key@ },
        }
    }
}

/// Key of an entry.
pub open spec fn model_key(e: EntryModel) -> Seq<char> {
    match e {
        EntryModel::Put { key, .. } => key,
        EntryModel::Delete { key } => key,
    }
}

/// UTF-8 bytes of the key as written to the log.
pub open spec fn model_key_bytes(e: EntryModel) -> Seq<u8> {
    encode_utf8(model_key(e))
}

/// UTF-8 bytes of the value before compression; empty for a Delete.
pub open spec fn model_value_bytes(e: EntryModel) -> Seq<u8> {
    match e {
        EntryModel::Put { value, .. } => encode_utf8(value),
        EntryModel::Delete { .. } => Seq::empty(),
    }
}

/// Expiry stored in the header: a Delete never carries one.
pub open spec fn model_expires(e: EntryModel) -> Option<u64> {
    match e {
        EntryModel::Put { expires_at, .. } => expires_at,
        EntryModel::Delete { .. } => None,
    }
}

/// Opcode of an entry.
pub open spec fn model_op(e: EntryModel) -> WalOp {
    match e {
        EntryModel::Put { .. } => WalOp::Put,
        EntryModel::Delete { .. } => WalOp::Delete,
    }
}

/// Value payload as stored on disk: Snappy-compressed when compression is
/// enabled and the value is non-empty, the raw value bytes otherwise.
pub open spec fn spec_payload(value_bytes: Seq<u8>, compression: bool) -> Seq<u8> {
    if compression && value_bytes.len() > 0 {
        snap_compress(value_bytes)
    } else {
        value_bytes
    }
}

/// On-disk payload of an entry.
pub open spec fn model_payload(e: EntryModel, compression: bool) -> Seq<u8> {
    spec_payload(model_value_bytes(e), compression)
}

/// Total on-disk length of the record encoding `e`.
pub open spec fn spec_record_len(e: EntryModel, compression: bool) -> int {
    HEADER_SIZE + model_key_bytes(e).len() + model_payload(e, compression).len()
}

/// TTL flag byte of the header.
pub open spec fn spec_flag_byte(e: EntryModel) -> u8 {
    match model_expires(e) {
        Some(_) => 1,
        None => 0,
    }
}

/// TTL seconds field of the header; zero (and ignored on decode) without expiry.
pub open spec fn spec_ttl_field(e: EntryModel) -> u64 {
    match model_expires(e) {
        Some(t) => t,
        None => 0,
    }
}

/// Complete byte encoding of an entry.
pub open spec fn spec_encode(e: EntryModel, compression: bool) -> Seq<u8> {
    seq![spec_op_byte(model_op(e))] + spec_u32_to_le_bytes(model_key_bytes(e).len() as u32)
        + spec_u32_to_le_bytes(model_payload(e, compression).len() as u32)
        + seq![spec_flag_byte(e)] + spec_u64_to_le_bytes(spec_ttl_field(e)) + model_key_bytes(e)
        + model_payload(e, compression)
}

/// An entry too large to encode: either the value overruns the compressor's
/// worst-case output cap, or header, key, and payload together exceed the
/// `u32` length bound.
pub open spec fn spec_encode_oversized(e: EntryModel, compression: bool) -> bool {
    ||| (compression && model_value_bytes(e).len() > 0 && 32 + model_value_bytes(e).len()
        + model_value_bytes(e).len() / 6 > MAX_RECORD_LEN)
    ||| spec_record_len(e, compression) > MAX_RECORD_LEN
}

/// Outcome of decoding one record from the front of a byte sequence.
pub enum DecodeOut {
    /// The sequence is empty: a clean end of the log.
    End,
    /// The bytes do not form a record.
    Fail(WalError),
    /// A record was decoded; `record_len` bytes were consumed.
    Rec { entry: EntryModel, record_len: int, value_len: int },
}

/// Decodes one record from the front of `bytes`, mirroring byte for byte the
/// checks the executable decoder performs.
pub open spec fn spec_decode(bytes: Seq<u8>, compression: bool) -> DecodeOut {
    if bytes.len() == 0 {
        DecodeOut::End
    } else if bytes[0] != 1 && bytes[0] != 2 {
        DecodeOut::Fail(WalError::UnknownOpcode)
    } else if bytes.len() < HEADER_SIZE {
        DecodeOut::Fail(WalError::UnexpectedEof)
    } else {
        let key_len = spec_u32_from_le_bytes(bytes.subrange(1, 5)) as int;
        let value_len = spec_u32_from_le_bytes(bytes.subrange(5, 9)) as int;
        let expires: Option<u64> = if bytes[9] == 1 {
            Some(spec_u64_from_le_bytes(bytes.subrange(10, 18)))
        } else {
            None
        };
        if HEADER_SIZE + key_len + value_len > MAX_RECORD_LEN {
            DecodeOut::Fail(WalError::RecordTooLarge)
        } else if bytes.len() < HEADER_SIZE + key_len {
            DecodeOut::Fail(WalError::UnexpectedEof)
        } else {
            let kb = bytes.subrange(HEADER_SIZE as int, HEADER_SIZE + key_len);
            if !valid_utf8(kb) {
                DecodeOut::Fail(WalError::InvalidUtf8Key)
            } else if bytes[0] == 1 {
                if bytes.len() < HEADER_SIZE + key_len + value_len {
                    DecodeOut::Fail(WalError::UnexpectedEof)
                } else {
                    let pb = bytes.subrange(
                        HEADER_SIZE + key_len,
                        HEADER_SIZE + key_len + value_len,
                    );
                    let vb_opt: Option<Seq<u8>> = if compression && value_len > 0 {
                        snap_decompress(pb)
                    } else {
                        Some(pb)
                    };
                    match vb_opt {
                        None => DecodeOut::Fail(WalError::CorruptPayload),
                        Some(vb) => if !valid_utf8(vb) {
                            DecodeOut::Fail(WalError::InvalidUtf8Value)
                        } else {
                            DecodeOut::Rec {
                                entry: EntryModel::Put {
                                    key: decode_utf8(kb),
                                    value: decode_utf8(vb),
                                    expires_at: expires,
                                },
                                record_len: HEADER_SIZE + key_len + value_len,
                                value_len: value_len,
                            }
                        },
                    }
                }
            } else {
                if value_len != 0 {
                    DecodeOut::Fail(WalError::DeletePayload)
                } else {
                    DecodeOut::Rec {
                        entry: EntryModel::Delete { key: decode_utf8(kb) },
                        record_len: HEADER_SIZE + key_len,
                        value_len: 0,
                    }
                }
            }
        }
    }
}

/// Result of Snappy-compressing a byte sequence. The output is a function of
/// the input alone: the compressor is deterministic.
pub uninterp spec fn snap_compress(input: Seq<u8>) -> Seq<u8>;

/// Result of Snappy-decompressing a byte sequence: `None` when the bytes are
/// not conforming Snappy data. A function of the input alone.
pub uninterp spec fn snap_decompress(input: Seq<u8>) -> Option<Seq<u8>>;

/// Relies on `snap::raw::Encoder::compress_vec`: deterministic Snappy
/// compression that fails exactly when the worst-case compressed size
/// `32 + n + n / 6` of an `n`-byte input exceeds the 2^32 - 1 byte cap,
/// always emits at least the length preamble, and is inverted by
/// `snap::raw::Decoder`.
#[verifier::external_body]
fn snappy_compress(input: &Vec<u8>) -> (r: Option<Vec<u8>>)
    ensures
        r is Some <==> 32 + input@.len() + input@.len() / 6 <= MAX_RECORD_LEN,
        r is Some ==> r->0@ == snap_compress(input@),
        r is Some ==> r->0@.len() > 0,
        r is Some ==> snap_decompress(snap_compress(input@)) == Some(input@),
{
    snap::raw::Encoder::new().compress_vec(input.as_slice()).ok()
}

/// Relies on `snap::raw::Decoder::decompress_vec`: deterministic
/// decompression that fails on bytes no conforming compressor produces.
#[verifier::external_body]
fn snappy_decompress(input: &Vec<u8>) -> (r: Option<Vec<u8>>)
    ensures
        r is Some <==> snap_decompress(input@) is Some,
        r is Some ==> Some(r->0@) == snap_decompress(input@),
{
    snap::raw::Decoder::new().decompress_vec(input.as_slice()).ok()
}

/// Relies on `String::from_utf8`: succeeds exactly on valid UTF-8 and decodes
/// it to the character sequence that the UTF-8 specification assigns.
#[verifier::external_body]
pub(crate) fn string_from_utf8(bytes: Vec<u8>) -> (r: Option<String>)
    ensures
        r is Some <==> valid_utf8(bytes@),
        r is Some ==> r->0@ == decode_utf8(bytes@),
{
    String::from_utf8(bytes).ok()
}

/// Decoded record retrieved from the log.
#[derive(Clone, Debug, PartialEq, Eq)]
pub struct WalRecord {
    /// Entry reconstructed from the log.
    pub entry: WalEntry,
    /// Starting byte offset of the record within the log.
    pub offset: u64,
    /// Total size of the record in bytes.
    pub record_len: u32,
    /// Size of the value payload.
    pub value_len: u32,
}

/// The executable decoder returned `r` for the record starting at `off`,
/// whose bytes to the end of the log are `bytes`: success and failure agree
/// with `spec_decode`.
pub open spec fn decode_matches(
    bytes: Seq<u8>,
    compression: bool,
    r: Result<WalRecord, WalError>,
    off: int,
) -> bool {
    match spec_decode(bytes, compression) {
        DecodeOut::End => false,
        DecodeOut::Fail(e) => r == Err::<WalRecord, WalError>(e),
        DecodeOut::Rec { entry, record_len, value_len } => match r {
            Ok(rec) => {
                &&& rec.entry@ == entry
                &&& rec.record_len as int == record_len
                &&& rec.value_len as int == value_len
                &&& rec.offset as int == off
            },
            Err(_) => false,
        },
    }
}

/// Copies `len` bytes of the log starting at `start` into a fresh vector.
pub fn copy_range(log: &Vec<u8>, start: usize, len: usize) -> (r: Vec<u8>)
    requires
        start + len <= log@.len(),
    ensures
        r@ == log@.subrange(start as int, start as int + len as int),
{
    let n = log.len();
    proof {
        assert(start + len <= n);
    }
    let mut r: Vec<u8> = Vec::new();
    let mut i: usize = 0;
    while i < len
        invariant
            i <= len,
            start + len <= log@.len(),
            start + len <= usize::MAX,
            r@ == log@.subrange(start as int, start as int + i as int),
        decreases len - i,
    {
        r.push(log[start + i]);
        i = i + 1;
        proof {
            assert(log@.subrange(start as int, start as int + i - 1) + seq![log@[start + i - 1]]
                =~= log@.subrange(start as int, start as int + i as int));
        }
    }
    r
}

/// Decodes the record that starts at byte `offset` of the log.
pub fn decode_record_at(log: &Vec<u8>, offset: usize, compression: bool) -> (r: Result<
    WalRecord,
    WalError,
>)
    requires
        offset < log@.len(),
    ensures
        decode_matches(log@.skip(offset as int), compression, r, offset as int),
{
    let ghost sfx = log@.skip(offset as int);
    let n = log.len();
    let op_byte = log[offset];
    proof {
        assert(op_byte == sfx[0]);
    }
    if op_byte != 1 && op_byte != 2 {
        return Err(WalError::UnknownOpcode);
    }
    if n - offset < HEADER_SIZE {
        return Err(WalError::UnexpectedEof);
    }
    let key_len_u = u32_from_le_bytes(slice_subrange(log.as_slice(), offset + 1, offset + 5));
    let value_len_u = u32_from_le_bytes(slice_subrange(log.as_slice(), offset + 5, offset + 9));
    let flag = log[offset + 9];
    let ttl = u64_from_le_bytes(slice_subrange(log.as_slice(), offset + 10, offset + 18));
    proof {
        assert(log@.subrange(offset + 1, offset + 5) =~= sfx.subrange(1, 5));
        assert(log@.subrange(offset + 5, offset + 9) =~= sfx.subrange(5, 9));
        assert(log@.subrange(offset + 10, offset + 18) =~= sfx.subrange(10, 18));
        assert(flag == sfx[9]);
    }
    let expires_at: Option<u64> = if flag == 1 {
        Some(ttl)
    } else {
        None
    };
    if HEADER_SIZE as u64 + key_len_u as u64 + value_len_u as u64 > MAX_RECORD_LEN {
        return Err(WalError::RecordTooLarge);
    }
    let key_len = key_len_u as usize;
    let value_len = value_len_u as usize;
    if key_len > n - offset - HEADER_SIZE {
        return Err(WalError::UnexpectedEof);
    }
    let kb = copy_range(log, offset + HEADER_SIZE, key_len);
    proof {
        assert(kb@ =~= sfx.subrange(HEADER_SIZE as int, HEADER_SIZE + key_len as int));
    }
    let key = match string_from_utf8(kb) {
        Some(k) => k,
        None => {
            return Err(WalError::InvalidUtf8Key);
        },
    };
    if op_byte == 1 {
        if value_len > n - offset - HEADER_SIZE - key_len {
            return Err(WalError::UnexpectedEof);
        }
        let pb = copy_range(log, offset + HEADER_SIZE + key_len, value_len);
        proof {
            assert(pb@ =~= sfx.subrange(
                HEADER_SIZE + key_len as int,
                HEADER_SIZE + key_len as int + value_len as int,
            ));
        }
        let vb: Vec<u8> = if compression && value_len > 0 {
            match snappy_decompress(&pb) {
                Some(v) => v,
                None => {
                    return Err(WalError::CorruptPayload);
                },
            }
        } else {
            pb
        };
        let value = match string_from_utf8(vb) {
            Some(v) => v,
            None => {
                return Err(WalError::InvalidUtf8Value);
            },
        };
        let record_len = (HEADER_SIZE as u64 + key_len as u64 + value_len as u64) as u32;
        Ok(WalRecord {
            entry: WalEntry::Put { key, value, expires_at },
            offset: offset as u64,
            record_len,
            value_len: value_len_u,
        })
    } else {
        if value_len_u != 0 {
            return Err(WalError::DeletePayload);
        }
        let record_len = (HEADER_SIZE as u64 + key_len as u64) as u32;
        Ok(WalRecord {
            entry: WalEntry::Delete { key },
            offset: offset as u64,
            record_len,
            value_len: 0,
        })
    }
}

/// Appends all bytes of `other` to `buf`.
pub fn push_bytes(buf: &mut Vec<u8>, other: &Vec<u8>)
    ensures
        final(buf)@ == old(buf)@ + other@,
{
    let ghost orig = buf@;
    let mut i: usize = 0;
    while i < other.len()
        invariant
            i <= other@.len(),
            buf@ == orig + other@.subrange(0, i as int),
        decreases other@.len() - i,
    {
        buf.push(other[i]);
        i = i + 1;
        proof {
            assert(orig + other@.subrange(0, i - 1) + seq![other@[i - 1]] =~= orig
                + other@.subrange(0, i as int));
        }
    }
    proof {
        assert(orig + other@.subrange(0, other@.len() as int) =~= orig + other@);
    }
}

/// Decoding inverts encoding, given that decompression inverts the
/// compression used for the payload.
proof fn lemma_decode_encode(e: EntryModel, compression: bool)
    requires
        model_key_bytes(e).len() <= MAX_RECORD_LEN,
        model_payload(e, compression).len() <= MAX_RECORD_LEN,
        spec_record_len(e, compression) <= MAX_RECORD_LEN,
        compression && model_value_bytes(e).len() > 0 ==> {
            &&& snap_decompress(model_payload(e, compression)) == Some(model_value_bytes(e))
            &&& model_payload(e, compression).len() > 0
        },
    ensures
        spec_decode(spec_encode(e, compression), compression) == (DecodeOut::Rec {
            entry: e,
            record_len: spec_record_len(e, compression),
            value_len: model_payload(e, compression).len() as int,
        }),
{
    broadcast use vstd::utf8::encode_utf8_valid_utf8, vstd::utf8::encode_utf8_decode_utf8;

    vstd::bytes::lemma_auto_spec_u32_to_from_le_bytes();
    vstd::bytes::lemma_auto_spec_u64_to_from_le_bytes();
    let b = spec_encode(e, compression);
    let kb = model_key_bytes(e);
    let pb = model_payload(e, compression);
    let kl = kb.len() as int;
    let pl = pb.len() as int;
    assert(b.len() == HEADER_SIZE + kl + pl);
    assert(b[0] == spec_op_byte(model_op(e)));
    assert(b.subrange(1, 5) =~= spec_u32_to_le_bytes(kl as u32));
    assert(b.subrange(5, 9) =~= spec_u32_to_le_bytes(pl as u32));
    assert(b[9] == spec_flag_byte(e));
    assert(b.subrange(10, 18) =~= spec_u64_to_le_bytes(spec_ttl_field(e)));
    assert(b.subrange(HEADER_SIZE as int, HEADER_SIZE + kl) =~= kb);
    assert(b.subrange(HEADER_SIZE + kl, HEADER_SIZE + kl + pl) =~= pb);
    assert(spec_u32_from_le_bytes(b.subrange(1, 5)) == kl);
    assert(spec_u32_from_le_bytes(b.subrange(5, 9)) == pl);
    match e {
        EntryModel::Put { key, value, expires_at } => {
            assert(decode_utf8(kb) == key);
            if compression && encode_utf8(value).len() > 0 {
                assert(snap_decompress(pb) == Some(encode_utf8(value)));
                assert(decode_utf8(encode_utf8(value)) == value);
            } else {
                assert(pb == encode_utf8(value));
                assert(decode_utf8(pb) == value);
            }
            match expires_at {
                Some(t) => {
                    assert(b[9] == 1);
                    assert(spec_u64_from_le_bytes(b.subrange(10, 18)) == t);
                },
                None => {
                    assert(b[9] == 0);
                },
            }
        },
        EntryModel::Delete { key } => {
            assert(decode_utf8(kb) == key);
            assert(pl == 0);
        },
    }
}

/// The encoding's length is the record length.
pub proof fn lemma_encode_len(e: EntryModel, compression: bool)
    ensures
        spec_encode(e, compression).len() == spec_record_len(e, compression),
{
    vstd::bytes::lemma_auto_spec_u32_to_from_le_bytes();
    vstd::bytes::lemma_auto_spec_u64_to_from_le_bytes();
}

/// Decoding inverts encoding when compression is off: the round-trip law of
/// the plain codec, for every Put with any TTL and every Delete.
pub proof fn lemma_codec_round_trip(e: EntryModel)
    requires
        spec_record_len(e, false) <= MAX_RECORD_LEN,
    ensures
        spec_decode(spec_encode(e, false), false) == (DecodeOut::Rec {
            entry: e,
            record_len: spec_record_len(e, false),
            value_len: model_value_bytes(e).len() as int,
        }),
{
    lemma_decode_encode(e, false);
}

/// A decoded record depends only on its own `record_len` bytes: decoding is
/// stable under extending the buffer past the record.
pub proof fn lemma_decode_prefix(b1: Seq<u8>, b2: Seq<u8>, c: bool, e: EntryModel, l: int, vl: int)
    requires
        spec_decode(b1, c) == (DecodeOut::Rec { entry: e, record_len: l, value_len: vl }),
        l <= b2.len(),
        b2.subrange(0, l) == b1.subrange(0, l),
    ensures
        spec_decode(b2, c) == (DecodeOut::Rec { entry: e, record_len: l, value_len: vl }),
{
    lemma_decode_rec_bounds(b1, c, e, l, vl);
    assert forall|i: int| 0 <= i < l implies b2[i] == b1[i] by {
        assert(b2.subrange(0, l)[i] == b2[i]);
        assert(b1.subrange(0, l)[i] == b1[i]);
    }
    assert forall|a: int, b: int| 0 <= a <= b <= l implies b2.subrange(a, b) == b1.subrange(
        a,
        b,
    ) by {
        assert forall|i: int| 0 <= i < b - a implies b2.subrange(a, b)[i] == b1.subrange(a, b)[i] by {
            assert(b2.subrange(a, b)[i] == b2[a + i]);
            assert(b1.subrange(a, b)[i] == b1[a + i]);
        }
        assert(b2.subrange(a, b) =~= b1.subrange(a, b));
    }
    assert(b2[0] == b1[0]);
    assert(b2[9] == b1[9]);
    let kl = spec_u32_from_le_bytes(b1.subrange(1, 5)) as int;
    let hvl = spec_u32_from_le_bytes(b1.subrange(5, 9)) as int;
    assert(b2.subrange(1, 5) == b1.subrange(1, 5));
    assert(b2.subrange(5, 9) == b1.subrange(5, 9));
    assert(b2.subrange(10, 18) == b1.subrange(10, 18));
    assert(HEADER_SIZE + kl <= l);
    assert(b2.subrange(HEADER_SIZE as int, HEADER_SIZE + kl) == b1.subrange(
        HEADER_SIZE as int,
        HEADER_SIZE + kl,
    ));
    if b1[0] == 1 {
        assert(l == HEADER_SIZE + kl + hvl);
        assert(b2.subrange(HEADER_SIZE + kl, HEADER_SIZE + kl + hvl) == b1.subrange(
            HEADER_SIZE + kl,
            HEADER_SIZE + kl + hvl,
        ));
    }
}

/// Bounds that hold of every successfully decoded record, and the relation
/// between the record length and the length of the key's UTF-8 encoding.
pub proof fn lemma_decode_rec_bounds(bytes: Seq<u8>, c: bool, e: EntryModel, l: int, vl: int)
    requires
        spec_decode(bytes, c) == (DecodeOut::Rec { entry: e, record_len: l, value_len: vl }),
    ensures
        HEADER_SIZE <= l <= bytes.len(),
        l <= MAX_RECORD_LEN,
        0 <= vl,
        HEADER_SIZE + vl <= l,
        HEADER_SIZE + encode_utf8(model_key(e)).len() + vl == l,
        !c ==> model_value_bytes(e).len() == vl,
{
    let kl = spec_u32_from_le_bytes(bytes.subrange(1, 5)) as int;
    let kb = bytes.subrange(HEADER_SIZE as int, HEADER_SIZE + kl);
    assert(valid_utf8(kb));
    vstd::utf8::decode_utf8_encode_utf8(kb);
    assert(model_key(e) == decode_utf8(kb));
    if !c && bytes[0] == 1 {
        let pb = bytes.subrange(HEADER_SIZE + kl, HEADER_SIZE + kl + vl);
        assert(valid_utf8(pb));
        vstd::utf8::decode_utf8_encode_utf8(pb);
        assert(model_value_bytes(e) == pb);
    }
}

/// Encodes an entry to the bytes that `spec_encode` describes, or reports
/// that the entry is too large for the record format.
pub fn encode_entry(entry: &WalEntry, compression: bool) -> (r: Result<Vec<u8>, WalError>)
    ensures
        r is Err <==> spec_encode_oversized(entry@, compression),
        r matches Err(e) ==> e == WalError::RecordTooLarge,
        r matches Ok(buf) ==> {
            &&& buf@ == spec_encode(entry@, compression)
            &&& buf@.len() == spec_record_len(entry@, compression)
            &&& HEADER_SIZE <= buf@.len() <= MAX_RECORD_LEN
            &&& spec_decode(buf@, compression) == (DecodeOut::Rec {
                entry: entry@,
                record_len: buf@.len() as int,
                value_len: model_payload(entry@, compression).len() as int,
            })
        },
{
    let key_bytes: Vec<u8> = match entry {
        WalEntry::Put { key, .. } => key.as_str().as_bytes_vec(),
        WalEntry::Delete { key } => key.as_str().as_bytes_vec(),
    };
    let value_bytes: Vec<u8> = match entry {
        WalEntry::Put { value, .. } => value.as_str().as_bytes_vec(),
        WalEntry::Delete { .. } => Vec::new(),
    };
    proof {
        assert(key_bytes@ == model_key_bytes(entry@));
        assert(value_bytes@ == model_value_bytes(entry@));
    }
    let payload: Vec<u8> = if compression && value_bytes.len() > 0 {
        match snappy_compress(&value_bytes) {
            Some(p) => p,
            None => {
                return Err(WalError::RecordTooLarge);
            },
        }
    } else {
        value_bytes
    };
    proof {
        assert(payload@ == model_payload(entry@, compression));
    }
    let kl = key_bytes.len();
    let pl = payload.len();
    if kl as u64 > MAX_RECORD_LEN - HEADER_SIZE as u64 {
        return Err(WalError::RecordTooLarge);
    }
    if pl as u64 > MAX_RECORD_LEN - HEADER_SIZE as u64 - kl as u64 {
        return Err(WalError::RecordTooLarge);
    }
    let op_byte: u8 = match entry {
        WalEntry::Put { .. } => 1,
        WalEntry::Delete { .. } => 2,
    };
    let (flag, ttl): (u8, u64) = match entry {
        WalEntry::Put { expires_at: Some(t), .. } => (1, *t),
        _ => (0, 0),
    };
    let mut buf: Vec<u8> = Vec::new();
    buf.push(op_byte);
    let klb = vstd::bytes::u32_to_le_bytes(kl as u32);
    push_bytes(&mut buf, &klb);
    let plb = vstd::bytes::u32_to_le_bytes(pl as u32);
    push_bytes(&mut buf, &plb);
    buf.push(flag);
    let ttlb = vstd::bytes::u64_to_le_bytes(ttl);
    push_bytes(&mut buf, &ttlb);
    push_bytes(&mut buf, &key_bytes);
    push_bytes(&mut buf, &payload);
    proof {
        assert(buf@ =~= spec_encode(entry@, compression));
        lemma_decode_encode(entry@, compression);
    }
    Ok(buf)
}

} // verus!
