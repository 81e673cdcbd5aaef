//! Write-ahead log: operations, their binary encoding, checksum framing,
//! an in-memory append buffer with a flush policy, and replay.
//!
//! On disk the log is a sequence of frames `[length:4][crc32:4][payload]`.
//! The payload is the binary encoding of one [`Operation`]. An incomplete
//! trailing frame is treated as end-of-log; a checksum mismatch on a
//! complete frame is a fatal format error for that read.

use vstd::prelude::*;
use crate::codec::{
    str_encodable, spec_enc_str, spec_enc_i32, spec_enc_i64, spec_enc_u64, spec_enc_u32,
    spec_enc_u32_list, spec_enc_i64_list, spec_dec_str, spec_dec_i32,
    spec_dec_i64, spec_dec_u64, spec_dec_u32, spec_dec_u32_list, spec_dec_i64_list,
    enc_str_onto, enc_i32_onto, enc_i64_onto, enc_u64_onto, enc_u32_onto, enc_u32_list_onto,
    enc_i64_list_onto, dec_str, dec_i32, dec_i64, dec_u64, dec_u32, dec_u32_list, dec_i64_list,
    lemma_dec_str_of_enc, lemma_dec_i32_of_enc, lemma_dec_i64_of_enc, lemma_dec_u64_of_enc,
    lemma_dec_u32_of_enc, lemma_dec_u32_list_of_enc, lemma_dec_i64_list_of_enc,
    lemma_enc_u32_len, lemma_enc_u64_len,
    lemma_enc_i32_len, lemma_enc_i64_len, lemma_enc_str_len, lemma_enc_u32_list_len,
    lemma_enc_i64_list_len,
};
use vstd::slice::{slice_subrange, slice_to_vec};
use crate::errors::BridgeError;
use vstd::string::StringSliceAdditionalSpecFns;

verus! {

pub const TAG_CREATE_INDEX: u8 = 0;

pub const TAG_ADD: u8 = 1;

pub const TAG_DELETE: u8 = 2;

pub const TAG_CHECKPOINT: u8 = 3;

/// Mathematical mirror of [`Operation`].
pub enum OpView {
    CreateIndex { name: Seq<char>, dimension: i32, k: i64, timestamp: u64 },
    Add { index: Seq<char>, id: i64, text: Seq<char>, vector: Seq<u32>, timestamp: u64 },
    Delete { index: Seq<char>, ids: Seq<i64>, timestamp: u64 },
    Checkpoint { snapshot_id: u64, timestamp: u64 },
}

/// A mutating operation recorded in the write-ahead log.
///
/// Vector components are carried as raw 32-bit patterns, so the log layer
/// itself is independent of the floating-point interpretation the vector
/// engine gives them. Timestamps are supplied by the caller, in
/// milliseconds.
#[derive(Debug, Clone)]
pub enum Operation {
    CreateIndex { name: String, dimension: i32, k: i64, timestamp: u64 },
    Add { index: String, id: i64, text: String, vector: Vec<u32>, timestamp: u64 },
    Delete { index: String, ids: Vec<i64>, timestamp: u64 },
    Checkpoint { snapshot_id: u64, timestamp: u64 },
}

impl View for Operation {
    type V = OpView;

    open spec fn view(&self) -> OpView {
        match self {
            Operation::CreateIndex { name, dimension, k, timestamp } => OpView::CreateIndex {
                name: name@,
                dimension: *dimension,
                k: *k,
                timestamp: *timestamp,
            },
            Operation::Add { index, id, text, vector, timestamp } => OpView::Add {
                index: index@,
                id: *id,
                text: text@,
                vector: vector@,
                timestamp: *timestamp,
            },
            Operation::Delete { index, ids, timestamp } => OpView::Delete {
                index: index@,
                ids: ids@,
                timestamp: *timestamp,
            },
            Operation::Checkpoint { snapshot_id, timestamp } => OpView::Checkpoint {
                snapshot_id: *snapshot_id,
                timestamp: *timestamp,
            },
        }
    }
}

impl Operation {
    pub fn create_index(name: String, dimension: i32, k: i64, now_ms: u64) -> (r: Operation)
        ensures
            r@ == (OpView::CreateIndex { name: name@, dimension, k, timestamp: now_ms }),
    {
        Operation::CreateIndex { name, dimension, k, timestamp: now_ms }
    }

    pub fn add(index: String, id: i64, text: String, vector: Vec<u32>, now_ms: u64) -> (r:
        Operation)
        ensures
            r@ == (OpView::Add { index: index@, id, text: text@, vector: vector@, timestamp: now_ms }),
    {
        Operation::Add { index, id, text, vector, timestamp: now_ms }
    }

    pub fn delete(index: String, ids: Vec<i64>, now_ms: u64) -> (r: Operation)
        ensures
            r@ == (OpView::Delete { index: index@, ids: ids@, timestamp: now_ms }),
    {
        Operation::Delete { index, ids, timestamp: now_ms }
    }

    pub fn checkpoint(snapshot_id: u64, now_ms: u64) -> (r: Operation)
        ensures
            r@ == (OpView::Checkpoint { snapshot_id, timestamp: now_ms }),
    {
        Operation::Checkpoint { snapshot_id, timestamp: now_ms }
    }

    /// The creation timestamp carried by the operation.
    pub fn timestamp(&self) -> (r: u64)
        ensures
            r == spec_op_timestamp(self@),
    {
        match self {
            Operation::CreateIndex { timestamp, .. } => *timestamp,
            Operation::Add { timestamp, .. } => *timestamp,
            Operation::Delete { timestamp, .. } => *timestamp,
            Operation::Checkpoint { timestamp, .. } => *timestamp,
        }
    }
}

pub open spec fn spec_op_timestamp(v: OpView) -> u64 {
    match v {
        OpView::CreateIndex { timestamp, .. } => timestamp,
        OpView::Add { timestamp, .. } => timestamp,
        OpView::Delete { timestamp, .. } => timestamp,
        OpView::Checkpoint { timestamp, .. } => timestamp,
    }
}

/// Whether an operation's components fit the length-prefixed formats.
pub open spec fn op_encodable(v: OpView) -> bool {
    match v {
        OpView::CreateIndex { name, .. } => str_encodable(name),
        OpView::Add { index, text, vector, .. } => str_encodable(index) && str_encodable(text)
            && vector.len() <= u32::MAX,
        OpView::Delete { index, ids, .. } => str_encodable(index) && ids.len() <= u32::MAX,
        OpView::Checkpoint { .. } => true,
    }
}

/// The binary payload encoding an operation: a tag byte followed by the
/// operation's fields.
pub open spec fn spec_enc_op(v: OpView) -> Seq<u8> {
    match v {
        OpView::CreateIndex { name, dimension, k, timestamp } => seq![TAG_CREATE_INDEX]
            + spec_enc_str(name) + spec_enc_i32(dimension) + spec_enc_i64(k) + spec_enc_u64(
            timestamp,
        ),
        OpView::Add { index, id, text, vector, timestamp } => seq![TAG_ADD] + spec_enc_str(index)
            + spec_enc_i64(id) + spec_enc_str(text) + spec_enc_u32_list(vector) + spec_enc_u64(
            timestamp,
        ),
        OpView::Delete { index, ids, timestamp } => seq![TAG_DELETE] + spec_enc_str(index)
            + spec_enc_i64_list(ids) + spec_enc_u64(timestamp),
        OpView::Checkpoint { snapshot_id, timestamp } => seq![TAG_CHECKPOINT] + spec_enc_u64(
            snapshot_id,
        ) + spec_enc_u64(timestamp),
    }
}

pub open spec fn spec_dec_op(b: Seq<u8>, p: int) -> Option<(OpView, int)> {
    if 0 <= p < b.len() {
        let tag = b[p];
        if tag == TAG_CREATE_INDEX {
            match spec_dec_str(b, p + 1) {
                Some((name, p1)) => match spec_dec_i32(b, p1) {
                    Some((dimension, p2)) => match spec_dec_i64(b, p2) {
                        Some((k, p3)) => match spec_dec_u64(b, p3) {
                            Some((timestamp, p4)) => Some(
                                (OpView::CreateIndex { name, dimension, k, timestamp }, p4),
                            ),
                            None => None,
                        },
                        None => None,
                    },
                    None => None,
                },
                None => None,
            }
        } else if tag == TAG_ADD {
            match spec_dec_str(b, p + 1) {
                Some((index, p1)) => match spec_dec_i64(b, p1) {
                    Some((id, p2)) => match spec_dec_str(b, p2) {
                        Some((text, p3)) => match spec_dec_u32_list(b, p3) {
                            Some((vector, p4)) => match spec_dec_u64(b, p4) {
                                Some((timestamp, p5)) => Some(
                                    (OpView::Add { index, id, text, vector, timestamp }, p5),
                                ),
                                None => None,
                            },
                            None => None,
                        },
                        None => None,
                    },
                    None => None,
                },
                None => None,
            }
        } else if tag == TAG_DELETE {
            match spec_dec_str(b, p + 1) {
                Some((index, p1)) => match spec_dec_i64_list(b, p1) {
                    Some((ids, p2)) => match spec_dec_u64(b, p2) {
                        Some((timestamp, p3)) => Some(
                            (OpView::Delete { index, ids, timestamp }, p3),
                        ),
                        None => None,
                    },
                    None => None,
                },
                None => None,
            }
        } else if tag == TAG_CHECKPOINT {
            match spec_dec_u64(b, p + 1) {
                Some((snapshot_id, p1)) => match spec_dec_u64(b, p1) {
                    Some((timestamp, p2)) => Some(
                        (OpView::Checkpoint { snapshot_id, timestamp }, p2),
                    ),
                    None => None,
                },
                None => None,
            }
        } else {
            None
        }
    } else {
        None
    }
}

/// Encode an operation to its binary payload.
///
/// Fails exactly when a component exceeds the length-prefixed formats'
/// 32-bit limits.
pub fn encode_op(op: &Operation) -> (r: Result<Vec<u8>, BridgeError>)
    ensures
        (r is Ok) == op_encodable(op@),
        r matches Ok(v) ==> v@ == spec_enc_op(op@),
        r matches Err(e) ==> e is Persistence,
{
    let mut out: Vec<u8> = Vec::new();
    match op {
        Operation::CreateIndex { name, dimension, k, timestamp } => {
            let nb = name.as_str();
            if nb.as_bytes().len() > u32::MAX as usize {
                return Err(
                    BridgeError::Persistence("operation component too long".to_owned()),
                );
            }
            out.push(TAG_CREATE_INDEX);
            enc_str_onto(nb, &mut out);
            enc_i32_onto(*dimension, &mut out);
            enc_i64_onto(*k, &mut out);
            enc_u64_onto(*timestamp, &mut out);
            proof {
                assert(out@ =~= spec_enc_op(op@));
            }
            Ok(out)
        },
        Operation::Add { index, id, text, vector, timestamp } => {
            let ib = index.as_str();
            let tb = text.as_str();
            if ib.as_bytes().len() > u32::MAX as usize || tb.as_bytes().len() > u32::MAX as usize
                || vector.len() > u32::MAX as usize {
                return Err(
                    BridgeError::Persistence("operation component too long".to_owned()),
                );
            }
            out.push(TAG_ADD);
            enc_str_onto(ib, &mut out);
            enc_i64_onto(*id, &mut out);
            enc_str_onto(tb, &mut out);
            enc_u32_list_onto(vector, &mut out);
            enc_u64_onto(*timestamp, &mut out);
            proof {
                assert(out@ =~= spec_enc_op(op@));
            }
            Ok(out)
        },
        Operation::Delete { index, ids, timestamp } => {
            let ib = index.as_str();
            if ib.as_bytes().len() > u32::MAX as usize || ids.len() > u32::MAX as usize {
                return Err(
                    BridgeError::Persistence("operation component too long".to_owned()),
                );
            }
            out.push(TAG_DELETE);
            enc_str_onto(ib, &mut out);
            enc_i64_list_onto(ids, &mut out);
            enc_u64_onto(*timestamp, &mut out);
            proof {
                assert(out@ =~= spec_enc_op(op@));
            }
            Ok(out)
        },
        Operation::Checkpoint { snapshot_id, timestamp } => {
            out.push(TAG_CHECKPOINT);
            enc_u64_onto(*snapshot_id, &mut out);
            enc_u64_onto(*timestamp, &mut out);
            proof {
                assert(out@ =~= spec_enc_op(op@));
            }
            Ok(out)
        },
    }
}

/// Decode one operation from an entire payload; trailing bytes are a
/// format error.
pub fn decode_op(b: &[u8]) -> (r: Result<Operation, BridgeError>)
    ensures
        (r is Ok) == (spec_dec_op(b@, 0) matches Some(p) && p.1 == b@.len()),
        r matches Ok(op) ==> spec_dec_op(b@, 0) matches Some(p) && op@ == p.0,
        r matches Err(e) ==> e is Persistence,
{
    let fail: BridgeError = BridgeError::Persistence("malformed operation payload".to_owned());
    if b.len() == 0 {
        return Err(fail);
    }
    let tag = b[0];
    if tag == TAG_CREATE_INDEX {
        let (name, p1) = match dec_str(b, 1) {
            Some(x) => x,
            None => { return Err(fail) },
        };
        let (dimension, p2) = match dec_i32(b, p1) {
            Some(x) => x,
            None => { return Err(fail) },
        };
        let (k, p3) = match dec_i64(b, p2) {
            Some(x) => x,
            None => { return Err(fail) },
        };
        let (timestamp, p4) = match dec_u64(b, p3) {
            Some(x) => x,
            None => { return Err(fail) },
        };
        if p4 != b.len() {
            return Err(fail);
        }
        Ok(Operation::CreateIndex { name, dimension, k, timestamp })
    } else if tag == TAG_ADD {
        let (index, p1) = match dec_str(b, 1) {
            Some(x) => x,
            None => { return Err(fail) },
        };
        let (id, p2) = match dec_i64(b, p1) {
            Some(x) => x,
            None => { return Err(fail) },
        };
        let (text, p3) = match dec_str(b, p2) {
            Some(x) => x,
            None => { return Err(fail) },
        };
        let (vector, p4) = match dec_u32_list(b, p3) {
            Some(x) => x,
            None => { return Err(fail) },
        };
        let (timestamp, p5) = match dec_u64(b, p4) {
            Some(x) => x,
            None => { return Err(fail) },
        };
        if p5 != b.len() {
            return Err(fail);
        }
        Ok(Operation::Add { index, id, text, vector, timestamp })
    } else if tag == TAG_DELETE {
        let (index, p1) = match dec_str(b, 1) {
            Some(x) => x,
            None => { return Err(fail) },
        };
        let (ids, p2) = match dec_i64_list(b, p1) {
            Some(x) => x,
            None => { return Err(fail) },
        };
        let (timestamp, p3) = match dec_u64(b, p2) {
            Some(x) => x,
            None => { return Err(fail) },
        };
        if p3 != b.len() {
            return Err(fail);
        }
        Ok(Operation::Delete { index, ids, timestamp })
    } else if tag == TAG_CHECKPOINT {
        let (snapshot_id, p1) = match dec_u64(b, 1) {
            Some(x) => x,
            None => { return Err(fail) },
        };
        let (timestamp, p2) = match dec_u64(b, p1) {
            Some(x) => x,
            None => { return Err(fail) },
        };
        if p2 != b.len() {
            return Err(fail);
        }
        Ok(Operation::Checkpoint { snapshot_id, timestamp })
    } else {
        Err(fail)
    }
}

/// Decoding the encoding of an operation yields the operation back,
/// consuming exactly the encoded bytes.
pub proof fn lemma_dec_op_of_enc(v: OpView)
    requires
        op_encodable(v),
    ensures
        spec_dec_op(spec_enc_op(v), 0) == Some((v, spec_enc_op(v).len() as int)),
{
    let b = spec_enc_op(v);
    match v {
        OpView::CreateIndex { name, dimension, k, timestamp } => {
            let e1 = spec_enc_str(name);
            lemma_enc_str_len(name);
            lemma_enc_i32_len(dimension);
            lemma_enc_i64_len(k);
            lemma_enc_u64_len(timestamp);
            let l1 = 1 + e1.len() as int;
            let l2 = l1 + 4;
            let l3 = l2 + 8;
            let l4 = l3 + 8;
            assert(b[0] == TAG_CREATE_INDEX);
            assert(b.subrange(1, l1) =~= e1);
            lemma_dec_str_of_enc(b, 1, name);
            assert(b.subrange(l1, l2) =~= spec_enc_i32(dimension));
            lemma_dec_i32_of_enc(b, l1, dimension);
            assert(b.subrange(l2, l3) =~= spec_enc_i64(k));
            lemma_dec_i64_of_enc(b, l2, k);
            assert(b.subrange(l3, l4) =~= spec_enc_u64(timestamp));
            lemma_dec_u64_of_enc(b, l3, timestamp);
            assert(b.len() == l4);
        },
        OpView::Add { index, id, text, vector, timestamp } => {
            let e1 = spec_enc_str(index);
            let e3 = spec_enc_str(text);
            lemma_enc_str_len(index);
            lemma_enc_str_len(text);
            lemma_enc_i64_len(id);
            lemma_enc_u32_list_len(vector);
            lemma_enc_u64_len(timestamp);
            let l1 = 1 + e1.len() as int;
            let l2 = l1 + 8;
            let l3 = l2 + e3.len() as int;
            let l4 = l3 + 4 + 4 * vector.len() as int;
            let l5 = l4 + 8;
            assert(b[0] == TAG_ADD);
            assert(b.subrange(1, l1) =~= e1);
            lemma_dec_str_of_enc(b, 1, index);
            assert(b.subrange(l1, l2) =~= spec_enc_i64(id));
            lemma_dec_i64_of_enc(b, l1, id);
            assert(b.subrange(l2, l3) =~= e3);
            lemma_dec_str_of_enc(b, l2, text);
            assert(b.subrange(l3, l4) =~= spec_enc_u32_list(vector));
            lemma_dec_u32_list_of_enc(b, l3, vector);
            assert(b.subrange(l4, l5) =~= spec_enc_u64(timestamp));
            lemma_dec_u64_of_enc(b, l4, timestamp);
            assert(b.len() == l5);
        },
        OpView::Delete { index, ids, timestamp } => {
            let e1 = spec_enc_str(index);
            lemma_enc_str_len(index);
            lemma_enc_i64_list_len(ids);
            lemma_enc_u64_len(timestamp);
            let l1 = 1 + e1.len() as int;
            let l2 = l1 + 4 + 8 * ids.len() as int;
            let l3 = l2 + 8;
            assert(b[0] == TAG_DELETE);
            assert(b.subrange(1, l1) =~= e1);
            lemma_dec_str_of_enc(b, 1, index);
            assert(b.subrange(l1, l2) =~= spec_enc_i64_list(ids));
            lemma_dec_i64_list_of_enc(b, l1, ids);
            assert(b.subrange(l2, l3) =~= spec_enc_u64(timestamp));
            lemma_dec_u64_of_enc(b, l2, timestamp);
            assert(b.len() == l3);
        },
        OpView::Checkpoint { snapshot_id, timestamp } => {
            lemma_enc_u64_len(snapshot_id);
            lemma_enc_u64_len(timestamp);
            assert(b[0] == TAG_CHECKPOINT);
            assert(b.subrange(1, 9) =~= spec_enc_u64(snapshot_id));
            lemma_dec_u64_of_enc(b, 1, snapshot_id);
            assert(b.subrange(9, 17) =~= spec_enc_u64(timestamp));
            lemma_dec_u64_of_enc(b, 9, timestamp);
            assert(b.len() == 17);
        },
    }
}

// ---------------------------------------------------------------------------
// Checksum framing
// ---------------------------------------------------------------------------

/// The CRC-32 checksum of a byte sequence, as the checksum engine computes
/// it: a function of the bytes alone.
pub uninterp spec fn crc32_of(data: Seq<u8>) -> u32;

/// One log frame: the payload length, the payload's checksum, then the
/// payload itself.
pub open spec fn spec_enc_frame(payload: Seq<u8>) -> Seq<u8>
    recommends
        payload.len() <= u32::MAX,
{
    spec_enc_u32(payload.len() as u32) + spec_enc_u32(crc32_of(payload)) + payload
}

/// Outcome of reading one frame: clean (or truncated) end of log, a
/// corrupt complete frame, or a payload with the position after it.
pub enum FrameDecode {
    End,
    Corrupt,
    Frame(Seq<u8>, int),
}

pub open spec fn spec_dec_frame(b: Seq<u8>, p: int) -> FrameDecode {
    match spec_dec_u32(b, p) {
        None => FrameDecode::End,
        Some((len, q)) => match spec_dec_u32(b, q) {
            None => FrameDecode::End,
            Some((crc, q2)) => if q2 + len > b.len() {
                FrameDecode::End
            } else if crc32_of(b.subrange(q2, q2 + len)) == crc {
                FrameDecode::Frame(b.subrange(q2, q2 + len), q2 + len)
            } else {
                FrameDecode::Corrupt
            },
        },
    }
}

pub proof fn lemma_frame_bounds(b: Seq<u8>, p: int)
    requires
        0 <= p <= b.len(),
    ensures
        spec_dec_frame(b, p) matches FrameDecode::Frame(d, q) ==> p + 8 <= q <= b.len() && d
            == b.subrange(p + 8, q),
{
}

/// One log record as framed on disk: the payload bytes and their checksum.
#[derive(Debug)]
pub struct WalEntry {
    pub data: Vec<u8>,
    pub crc32: u32,
}

impl WalEntry {
    /// The stored checksum is the payload's checksum, and the payload fits
    /// the frame's 32-bit length field.
    pub open spec fn wf(&self) -> bool {
        self.data@.len() <= u32::MAX && self.crc32 == crc32_of(self.data@)
    }

    /// Relies on `crc32fast::hash`: the CRC-32 checksum of the bytes,
    /// depending on the bytes alone.
    #[verifier::external_body]
    pub(crate) fn compute_crc32(data: &[u8]) -> (r: u32)
        ensures
            r == crc32_of(data@),
    {
        crc32fast::hash(data)
    }

    /// Frame an operation: encode it and compute its checksum. Fails
    /// exactly when the operation does not fit the binary formats.
    pub fn new(op: &Operation) -> (r: Result<WalEntry, BridgeError>)
        ensures
            (r is Ok) == (op_encodable(op@) && spec_enc_op(op@).len() <= u32::MAX),
            r matches Ok(e) ==> e.data@ == spec_enc_op(op@) && e.wf(),
            r matches Err(e) ==> e is Persistence,
    {
        let data = match encode_op(op) {
            Ok(d) => d,
            Err(e) => { return Err(e) },
        };
        if data.len() > u32::MAX as usize {
            return Err(BridgeError::Persistence("operation payload too long".to_owned()));
        }
        let crc = WalEntry::compute_crc32(data.as_slice());
        Ok(WalEntry { data, crc32: crc })
    }

    /// Append the frame `[length][checksum][payload]` to a byte buffer.
    pub fn write_to(&self, out: &mut Vec<u8>)
        requires
            self.wf(),
        ensures
            final(out)@ == old(out)@ + spec_enc_frame(self.data@),
    {
        enc_u32_onto(self.data.len() as u32, out);
        enc_u32_onto(self.crc32, out);
        out.extend_from_slice(self.data.as_slice());
        assert(out@ =~= old(out)@ + spec_enc_frame(self.data@));
    }

    /// Read one frame starting at `pos`. A truncated frame is a clean end
    /// of log; a checksum mismatch on a complete frame is an error.
    pub fn read_from(b: &[u8], pos: usize) -> (r: Result<Option<(WalEntry, usize)>, BridgeError>)
        requires
            pos <= b@.len(),
        ensures
            (r matches Ok(None)) == (spec_dec_frame(b@, pos as int) is End),
            (r is Err) == (spec_dec_frame(b@, pos as int) is Corrupt),
            r matches Err(e) ==> e is Persistence,
            r matches Ok(Some(ep)) ==> spec_dec_frame(b@, pos as int) matches FrameDecode::Frame(
                d,
                e,
            ) && ep.0.data@ == d && ep.0.wf() && ep.1 as int == e && ep.1 <= b@.len(),
    {
        let (len, q) = match dec_u32(b, pos) {
            Some(x) => x,
            None => { return Ok(None) },
        };
        let (crc, q2) = match dec_u32(b, q) {
            Some(x) => x,
            None => { return Ok(None) },
        };
        let len_us = len as usize;
        if b.len() - q2 < len_us {
            return Ok(None);
        }
        let payload_slice = slice_subrange(b, q2, q2 + len_us);
        let actual = WalEntry::compute_crc32(payload_slice);
        if actual != crc {
            return Err(BridgeError::Persistence("checksum mismatch on log frame".to_owned()));
        }
        let data = slice_to_vec(payload_slice);
        Ok(Some((WalEntry { data, crc32: crc }, q2 + len_us)))
    }

    /// Decode the payload back to the operation it frames.
    pub fn to_operation(&self) -> (r: Result<Operation, BridgeError>)
        ensures
            (r is Ok) == (spec_dec_op(self.data@, 0) matches Some(p) && p.1 == self.data@.len()),
            r matches Ok(op) ==> spec_dec_op(self.data@, 0) matches Some(p) && op@ == p.0,
            r matches Err(e) ==> e is Persistence,
    {
        decode_op(self.data.as_slice())
    }
}

// ---------------------------------------------------------------------------
// Replay
// ---------------------------------------------------------------------------

/// Replay a byte image of the log from position `p`: the sequence of
/// operations its complete, well-formed frames hold, or nothing if a
/// complete frame is corrupt or holds a malformed payload.
pub open spec fn spec_replay(b: Seq<u8>, p: int) -> Option<Seq<OpView>>
    decreases b.len() - p,
    when 0 <= p <= b.len()
{
    match spec_dec_frame(b, p) {
        FrameDecode::End => Some(Seq::empty()),
        FrameDecode::Corrupt => None,
        FrameDecode::Frame(payload, q) => match spec_dec_op(payload, 0) {
            Some(pr) => if pr.1 == payload.len() {
                match spec_replay(b, q) {
                    Some(rest) => Some(seq![pr.0] + rest),
                    None => None,
                }
            } else {
                None
            },
            None => None,
        },
    }
}

/// The framed encoding of a sequence of operations, in order.
pub open spec fn spec_frames(ops: Seq<OpView>) -> Seq<u8>
    decreases ops.len(),
{
    if ops.len() == 0 {
        Seq::empty()
    } else {
        spec_enc_frame(spec_enc_op(ops[0])) + spec_frames(ops.drop_first())
    }
}

/// Whether every operation fits the log's binary formats.
pub open spec fn ops_loggable(ops: Seq<OpView>) -> bool {
    forall|i: int|
        0 <= i < ops.len() ==> op_encodable(#[trigger] ops[i]) && spec_enc_op(ops[i]).len()
            <= u32::MAX
}

/// Log round trip: replaying the framed encoding of any sequence of
/// loggable operations yields exactly those operations, in order, with
/// all fields intact.
pub proof fn lemma_wal_roundtrip(ops: Seq<OpView>)
    requires
        ops_loggable(ops),
    ensures
        spec_replay(spec_frames(ops), 0) == Some(ops),
{
    let b = spec_frames(ops);
    assert(b.subrange(0, b.len() as int) =~= b);
    lemma_replay_frames_suffix(b, 0, ops);
}

proof fn lemma_replay_frames_suffix(b: Seq<u8>, p: int, ops: Seq<OpView>)
    requires
        0 <= p <= b.len(),
        ops_loggable(ops),
        b.subrange(p, b.len() as int) == spec_frames(ops),
    ensures
        spec_replay(b, p) == Some(ops),
    decreases ops.len(),
{
    if ops.len() == 0 {
        assert(spec_frames(ops) =~= Seq::<u8>::empty());
        assert(b.len() == p);
        assert(spec_dec_frame(b, p) is End);
        assert(ops =~= Seq::<OpView>::empty());
    } else {
        let v0 = ops[0];
        let e0 = spec_enc_op(v0);
        let f0 = spec_enc_frame(e0);
        let rest_frames = spec_frames(ops.drop_first());
        assert(spec_frames(ops) == f0 + rest_frames);
        lemma_enc_u32_len(e0.len() as u32);
        lemma_enc_u32_len(crc32_of(e0));
        assert(f0.len() == 8 + e0.len());
        let q2 = p + 8;
        let q = q2 + e0.len() as int;
        assert(q <= b.len());
        assert(b.subrange(p, q) =~= f0);
        assert(b.subrange(p, p + 4) =~= f0.subrange(0, 4));
        assert(f0.subrange(0, 4) =~= spec_enc_u32(e0.len() as u32));
        lemma_dec_u32_of_enc(b, p, e0.len() as u32);
        assert(b.subrange(p + 4, p + 8) =~= f0.subrange(4, 8));
        assert(f0.subrange(4, 8) =~= spec_enc_u32(crc32_of(e0)));
        lemma_dec_u32_of_enc(b, p + 4, crc32_of(e0));
        assert(b.subrange(q2, q) =~= f0.subrange(8, f0.len() as int));
        assert(f0.subrange(8, f0.len() as int) =~= e0);
        assert(b.subrange(q2, q) =~= e0);
        assert(spec_dec_frame(b, p) == FrameDecode::Frame(e0, q));
        lemma_dec_op_of_enc(v0);
        assert(b.subrange(p, b.len() as int) == f0 + rest_frames);
        assert(b.subrange(q, b.len() as int) =~= (f0 + rest_frames).subrange(
            f0.len() as int,
            (f0 + rest_frames).len() as int,
        ));
        assert((f0 + rest_frames).subrange(f0.len() as int, (f0 + rest_frames).len() as int)
            =~= rest_frames);
        assert(b.subrange(q, b.len() as int) =~= rest_frames);
        lemma_replay_frames_suffix(b, q, ops.drop_first());
        assert(seq![v0] + ops.drop_first() =~= ops);
    }
}

// ---------------------------------------------------------------------------
// The in-memory writer state and the reader
// ---------------------------------------------------------------------------

/// Operations between forced flushes of the append buffer.
pub const WAL_FLUSH_INTERVAL: u64 = 100;

/// The in-memory side of the append-only log: frame bytes not yet handed
/// to the backing file, and the count of operations appended since the
/// log was created or last truncated.
///
/// The surrounding runtime owns the file itself; it drains this buffer
/// with [`WalState::take_buffered`] whenever an append reports that a
/// flush is due, and on explicit flushes.
pub struct WalState {
    pub buffered: Vec<u8>,
    pub op_count: u64,
}

impl WalState {
    pub fn new() -> (r: WalState)
        ensures
            r.buffered@ == Seq::<u8>::empty(),
            r.op_count == 0,
    {
        WalState { buffered: Vec::new(), op_count: 0 }
    }

    /// Append one framed operation to the buffer. Returns whether the
    /// periodic flush policy asks for a flush after this append.
    pub fn append(&mut self, op: &Operation) -> (r: Result<bool, BridgeError>)
        requires
            old(self).op_count < u64::MAX,
        ensures
            (r is Ok) == (op_encodable(op@) && spec_enc_op(op@).len() <= u32::MAX),
            r matches Ok(flush_due) ==> final(self).buffered@ == old(self).buffered@
                + spec_enc_frame(spec_enc_op(op@)) && final(self).op_count == old(self).op_count + 1
                && flush_due == (final(self).op_count % WAL_FLUSH_INTERVAL == 0),
            r is Err ==> *final(self) == *old(self),
            r matches Err(e) ==> e is Persistence,
    {
        match WalEntry::new(op) {
            Ok(entry) => {
                entry.write_to(&mut self.buffered);
                self.op_count = self.op_count + 1;
                Ok(self.op_count % WAL_FLUSH_INTERVAL == 0)
            },
            Err(e) => Err(e),
        }
    }

    /// Hand the buffered bytes to the caller (to be written to the file)
    /// and clear the buffer. The operation count is unaffected.
    pub fn take_buffered(&mut self) -> (r: Vec<u8>)
        ensures
            r@ == old(self).buffered@,
            final(self).buffered@ == Seq::<u8>::empty(),
            final(self).op_count == old(self).op_count,
    {
        let mut out: Vec<u8> = Vec::new();
        out.append(&mut self.buffered);
        out
    }

    /// Reset the log state after the backing file was replaced by an
    /// empty one.
    pub fn truncate(&mut self)
        ensures
            final(self).buffered@ == Seq::<u8>::empty(),
            final(self).op_count == 0,
    {
        self.buffered.clear();
        self.op_count = 0;
    }
}

/// Whether an operation is a checkpoint record for the given snapshot.
pub open spec fn spec_is_checkpoint(v: OpView, id: u64) -> bool {
    v matches OpView::Checkpoint { snapshot_id, .. } && snapshot_id == id
}

/// The position of the last checkpoint record for the given snapshot.
pub open spec fn spec_last_checkpoint(ops: Seq<OpView>, id: u64) -> Option<int>
    decreases ops.len(),
{
    if ops.len() == 0 {
        None
    } else if spec_is_checkpoint(ops.last(), id) {
        Some(ops.len() - 1)
    } else {
        spec_last_checkpoint(ops.drop_last(), id)
    }
}

pub proof fn lemma_last_checkpoint_none(ops: Seq<OpView>, id: u64)
    requires
        forall|j: int| 0 <= j < ops.len() ==> !spec_is_checkpoint(#[trigger] ops[j], id),
    ensures
        spec_last_checkpoint(ops, id) is None,
    decreases ops.len(),
{
    if ops.len() > 0 {
        lemma_last_checkpoint_none(ops.drop_last(), id);
    }
}

pub proof fn lemma_last_checkpoint_at(ops: Seq<OpView>, id: u64, i: int)
    requires
        0 <= i < ops.len(),
        spec_is_checkpoint(ops[i], id),
        forall|j: int| i < j < ops.len() ==> !spec_is_checkpoint(#[trigger] ops[j], id),
    ensures
        spec_last_checkpoint(ops, id) == Some(i),
    decreases ops.len(),
{
    if i == ops.len() - 1 {
    } else {
        lemma_last_checkpoint_at(ops.drop_last(), id, i);
    }
}

/// Replays framed operations from a byte image of the log file.
pub struct WalReader {
    data: Vec<u8>,
    pos: usize,
}

impl WalReader {
    pub closed spec fn spec_data(&self) -> Seq<u8> {
        self.data@
    }

    pub closed spec fn spec_pos(&self) -> int {
        self.pos as int
    }

    pub open spec fn wf(&self) -> bool {
        0 <= self.spec_pos() <= self.spec_data().len()
    }

    pub fn new(data: Vec<u8>) -> (r: WalReader)
        ensures
            r.spec_data() == data@,
            r.spec_pos() == 0,
            r.wf(),
    {
        WalReader { data, pos: 0 }
    }

    /// Replay every complete frame from the current position. Truncated
    /// trailing bytes end the replay cleanly; a corrupt complete frame or
    /// a malformed payload fails it.
    pub fn read_all(&mut self) -> (r: Result<Vec<Operation>, BridgeError>)
        requires
            old(self).wf(),
        ensures
            final(self).wf(),
            final(self).spec_data() == old(self).spec_data(),
            (r is Ok) == (spec_replay(old(self).spec_data(), old(self).spec_pos()) is Some),
            r matches Ok(v) ==> spec_replay(old(self).spec_data(), old(self).spec_pos())
                matches Some(vs) && v@.map_values(|o: Operation| o@) == vs,
            r matches Err(e) ==> e is Persistence,
    {
        let ghost b = self.data@;
        let ghost p0 = self.pos as int;
        let mut ops: Vec<Operation> = Vec::new();
        loop
            invariant
                b == old(self).spec_data(),
                p0 == old(self).spec_pos(),
                self.wf(),
                self.data@ == b,
                p0 <= self.spec_pos(),
                spec_replay(b, p0) == (match spec_replay(b, self.spec_pos()) {
                    Some(rest) => Some(ops@.map_values(|o: Operation| o@) + rest),
                    None => None::<Seq<OpView>>,
                }),
            decreases b.len() - self.spec_pos(),
        {
            let ghost p = self.pos as int;
            proof {
                lemma_frame_bounds(b, p);
            }
            match WalEntry::read_from(self.data.as_slice(), self.pos) {
                Ok(None) => {
                    proof {
                        assert(spec_replay(b, p) == Some(Seq::<OpView>::empty()));
                        assert(ops@.map_values(|o: Operation| o@) + Seq::<OpView>::empty()
                            =~= ops@.map_values(|o: Operation| o@));
                    }
                    return Ok(ops);
                },
                Err(e) => {
                    return Err(e);
                },
                Ok(Some((entry, newpos))) => {
                    match entry.to_operation() {
                        Ok(op) => {
                            proof {
                                let f = |o: Operation| o@;
                                let rest = spec_replay(b, newpos as int);
                                match rest {
                                    Some(rs) => {
                                        assert(spec_replay(b, p) == Some(seq![op@] + rs));
                                        assert(ops@.map_values(f) + (seq![op@] + rs)
                                            =~= ops@.map_values(f).push(op@) + rs);
                                        assert(ops@.push(op).map_values(f) =~= ops@.map_values(
                                            f,
                                        ).push(op@));
                                    },
                                    None => {
                                        assert(spec_replay(b, p) is None);
                                    },
                                }
                            }
                            ops.push(op);
                            self.pos = newpos;
                        },
                        Err(e) => {
                            proof {
                                assert(spec_replay(b, p) is None);
                            }
                            return Err(e);
                        },
                    }
                },
            }
        }
    }

    /// Replay, then return only the operations after the last checkpoint
    /// record carrying `checkpoint_id`; the full replay if there is none.
    pub fn read_since_checkpoint(&mut self, checkpoint_id: u64) -> (r: Result<
        Vec<Operation>,
        BridgeError,
    >)
        requires
            old(self).wf(),
        ensures
            final(self).wf(),
            (r is Ok) == (spec_replay(old(self).spec_data(), old(self).spec_pos()) is Some),
            r matches Ok(v) ==> spec_replay(old(self).spec_data(), old(self).spec_pos())
                matches Some(vs) && v@.map_values(|o: Operation| o@) == (
            match spec_last_checkpoint(vs, checkpoint_id) {
                Some(i) => vs.subrange(i + 1, vs.len() as int),
                None => vs,
            }),
            r matches Err(e) ==> e is Persistence,
    {
        let mut ops = match self.read_all() {
            Ok(v) => v,
            Err(e) => { return Err(e) },
        };
        let ghost vs = ops@.map_values(|o: Operation| o@);
        let mut idx: usize = ops.len();
        while idx > 0
            invariant
                self.wf(),
                spec_replay(old(self).spec_data(), old(self).spec_pos()) == Some(vs),
                idx <= ops@.len(),
                vs == ops@.map_values(|o: Operation| o@),
                forall|j: int|
                    idx <= j < vs.len() ==> !spec_is_checkpoint(#[trigger] vs[j], checkpoint_id),
            decreases idx,
        {
            let found = match &ops[idx - 1] {
                Operation::Checkpoint { snapshot_id, .. } => *snapshot_id == checkpoint_id,
                _ => false,
            };
            if found {
                proof {
                    lemma_last_checkpoint_at(vs, checkpoint_id, idx - 1);
                }
                let tail = ops.split_off(idx);
                proof {
                    assert(tail@.map_values(|o: Operation| o@) =~= vs.subrange(
                        idx as int,
                        vs.len() as int,
                    ));
                }
                return Ok(tail);
            }
            idx = idx - 1;
        }
        proof {
            lemma_last_checkpoint_none(vs, checkpoint_id);
        }
        Ok(ops)
    }
}

} // verus!
