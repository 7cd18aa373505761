//! Append-only write-ahead log of insertions, and crash recovery.
//!
//! Each entry is `entry_len: u32` followed by an `entry_len`-byte payload:
//! `op_type: u8` (0 = insert), `id: u64`, `dim: u32`, then `dim` coordinates
//! as `f32` bit patterns, all little-endian. A trailing entry that was cut off
//! while being written is ignored on replay.

use vstd::prelude::*;
use vstd::bytes::{spec_u32_from_le_bytes, spec_u64_from_le_bytes};
use crate::codec::{concat_map, le32, le64, le32s, lemma_le_facts, lemma_le32s_len, lemma_le32s_injective, lemma_concat_append, lemma_concat_push, lemma_prefix_concat, read_u8, read_u32, read_u64, read_u32s, write_u8, write_u32, write_u64, write_u32s};
use crate::flat_index::{FlatIndex, FlatIndexView, position_of};
use crate::serialize::{FormatError, decode_flat_index, flat_bytes, flat_encodable, header_check, INDEX_TYPE_FLAT};

verus! {

/// A logged operation.
#[derive(Debug, PartialEq)]
pub enum WalOp {
    /// Insert `vector` (coordinates as `f32` bit patterns) under `id`.
    Insert { id: u64, vector: Vec<u32> },
}

/// The abstract content of a logged insertion.
pub ghost struct WalOpView {
    pub id: u64,
    pub vector: Seq<u32>,
}

impl View for WalOp {
    type V = WalOpView;

    open spec fn view(&self) -> WalOpView {
        match self {
            WalOp::Insert { id, vector } => WalOpView { id: *id, vector: vector@ },
        }
    }
}

/// Why a log is corrupted.
#[derive(Debug, Clone, Copy, PartialEq, Eq, Structural)]
pub enum WalError {
    /// An entry has an empty payload.
    ZeroLengthPayload,
    /// An insert payload is shorter than its 13 fixed bytes.
    ShortInsertPayload(usize),
    /// An insert payload's length disagrees with its dimension.
    PayloadLengthMismatch { len: usize, expected: u64 },
    /// The operation byte is not a known operation.
    UnknownOp(u8),
}

/// Why replaying logged operations onto an index failed.
#[derive(Debug, Clone, Copy, PartialEq, Eq, Structural)]
pub enum ReplayError {
    /// A logged vector does not have the index's dimension.
    DimensionMismatch { got: usize, expected: usize },
    /// A logged ID is already in the index.
    DuplicateId(u64),
}

/// Why recovering an index from a snapshot and a log failed.
#[derive(Debug, Clone, Copy, PartialEq, Eq, Structural)]
pub enum RecoveryError {
    /// The snapshot is not a valid flat index file.
    Snapshot(FormatError),
    /// The log is corrupted.
    Log(WalError),
    /// A logged operation cannot be applied.
    Replay(ReplayError),
    /// The snapshot and the log hold more vectors than `usize` can count.
    TooManyVectors,
}

/// Payload length of an insert of `dim` coordinates.
pub open spec fn payload_len(dim: nat) -> nat {
    13 + 4 * dim
}

/// An insert whose entry length fits the `u32` length field.
pub open spec fn loggable(op: WalOpView) -> bool {
    payload_len(op.vector.len()) <= u32::MAX
}

/// The bytes of one logged insert.
pub open spec fn entry_bytes(op: WalOpView) -> Seq<u8> {
    le32(payload_len(op.vector.len()) as u32) + seq![0u8] + le64(op.id) + le32(
        op.vector.len() as u32,
    ) + le32s(op.vector)
}

/// The bytes of a log of inserts, in order.
pub open spec fn log_bytes(ops: Seq<WalOpView>) -> Seq<u8> {
    concat_map(ops, |op: WalOpView| entry_bytes(op))
}

/// How one payload is read.
pub open spec fn parse_payload(p: Seq<u8>) -> Result<WalOpView, WalError> {
    if p.len() == 0 {
        Err(WalError::ZeroLengthPayload)
    } else if p[0] != 0 {
        Err(WalError::UnknownOp(p[0]))
    } else if p.len() < 13 {
        Err(WalError::ShortInsertPayload(p.len() as usize))
    } else if p.len() != payload_len(spec_u32_from_le_bytes(p.subrange(9, 13)) as nat) {
        Err(
            WalError::PayloadLengthMismatch {
                len: p.len() as usize,
                expected: payload_len(spec_u32_from_le_bytes(p.subrange(9, 13)) as nat) as u64,
            },
        )
    } else {
        Ok(
            WalOpView {
                id: spec_u64_from_le_bytes(p.subrange(1, 9)),
                vector: choose|v: Seq<u32>| le32s(v) == p.subrange(13, p.len() as int),
            },
        )
    }
}

/// `Ok(ops)` with `ops` put in front of the operations of `r`.
pub open spec fn prepend(ops: Seq<WalOpView>, r: Result<Seq<WalOpView>, WalError>) -> Result<
    Seq<WalOpView>,
    WalError,
> {
    match r {
        Ok(rest) => Ok(ops + rest),
        Err(e) => Err(e),
    }
}

/// How a log is replayed: entries are read in order; a final entry whose
/// length field or payload was cut off ends the log; the first corrupted
/// payload is an error.
pub open spec fn parse_log(b: Seq<u8>) -> Result<Seq<WalOpView>, WalError>
    decreases b.len(),
{
    if b.len() < 4 {
        Ok(Seq::empty())
    } else {
        let len = spec_u32_from_le_bytes(b.subrange(0, 4)) as int;
        if b.len() - 4 < len {
            Ok(Seq::empty())
        } else {
            match parse_payload(b.subrange(4, 4 + len)) {
                Err(e) => Err(e),
                Ok(op) => prepend(seq![op], parse_log(b.subrange(4 + len, b.len() as int))),
            }
        }
    }
}

/// A tail left by a write that was cut off: too short for a length field, or
/// shorter than the payload its length field announces.
pub open spec fn torn_tail(t: Seq<u8>) -> bool {
    t.len() < 4 || spec_u32_from_le_bytes(t.subrange(0, 4)) > t.len() - 4
}

/// Applying logged inserts in order to an index, stopping at the first that
/// cannot be applied.
pub open spec fn replay_onto(v: FlatIndexView, ops: Seq<WalOpView>) -> Result<FlatIndexView, ReplayError>
    decreases ops.len(),
{
    if ops.len() == 0 {
        Ok(v)
    } else if ops[0].vector.len() != v.dim {
        Err(ReplayError::DimensionMismatch { got: ops[0].vector.len() as usize, expected: v.dim as usize })
    } else if v.ids.contains(ops[0].id) {
        Err(ReplayError::DuplicateId(ops[0].id))
    } else {
        replay_onto(
            FlatIndexView {
                ids: v.ids.push(ops[0].id),
                data: v.data + ops[0].vector,
                num_vectors: v.num_vectors + 1,
                ..v
            },
            ops.subrange(1, ops.len() as int),
        )
    }
}

/// The IDs of logged insertions, in log order.
pub open spec fn op_ids(ops: Seq<WalOpView>) -> Seq<u64> {
    ops.map_values(|o: WalOpView| o.id)
}

/// The coordinates of logged insertions, one vector after the other.
pub open spec fn op_data(ops: Seq<WalOpView>) -> Seq<u32>
    decreases ops.len(),
{
    if ops.len() == 0 {
        Seq::empty()
    } else {
        ops[0].vector + op_data(ops.subrange(1, ops.len() as int))
    }
}

/// The logged insertions can all be applied to `v`: each vector has its
/// dimension, and their IDs are distinct and not in `v`.
pub open spec fn replayable(v: FlatIndexView, ops: Seq<WalOpView>) -> bool {
    &&& forall|i: int| 0 <= i < ops.len() ==> (#[trigger] ops[i]).vector.len() == v.dim
    &&& forall|i: int| 0 <= i < ops.len() ==> !v.ids.contains(#[trigger] ops[i].id)
    &&& forall|i: int, j: int| 0 <= i < j < ops.len() ==> (#[trigger] ops[i]).id != (#[trigger] ops[j]).id
}

/// Replaying a log onto an index succeeds exactly when every logged
/// insertion can be applied, and then gives the index followed by the
/// logged IDs and vectors, in log order.
pub proof fn lemma_replay_closed_form(v: FlatIndexView, ops: Seq<WalOpView>)
    ensures
        replay_onto(v, ops) is Ok <==> replayable(v, ops),
        replayable(v, ops) ==> replay_onto(v, ops) == Ok::<FlatIndexView, ReplayError>(
            FlatIndexView {
                ids: v.ids + op_ids(ops),
                data: v.data + op_data(ops),
                num_vectors: v.num_vectors + ops.len(),
                ..v
            },
        ),
    decreases ops.len(),
{
    if ops.len() == 0 {
        assert(v.ids + op_ids(ops) =~= v.ids);
        assert(v.data + op_data(ops) =~= v.data);
    } else {
        let o = ops[0];
        let rest = ops.subrange(1, ops.len() as int);
        let w = FlatIndexView { ids: v.ids.push(o.id), data: v.data + o.vector, num_vectors: v.num_vectors + 1, ..v };
        lemma_replay_closed_form(w, rest);
        if replayable(v, ops) {
            assert(o.vector.len() == v.dim);
            assert(!v.ids.contains(o.id));
            assert forall|i: int| 0 <= i < rest.len() implies !w.ids.contains(#[trigger] rest[i].id) by {
                assert(rest[i] == ops[i + 1]);
                assert(ops[0].id != ops[i + 1].id);
                if w.ids.contains(rest[i].id) {
                    let q = choose|q: int| 0 <= q < w.ids.len() && w.ids[q] == rest[i].id;
                    if q < v.ids.len() {
                        assert(v.ids[q] == rest[i].id);
                    }
                }
            }
            assert forall|i: int| 0 <= i < rest.len() implies (#[trigger] rest[i]).vector.len() == w.dim by {
                assert(rest[i] == ops[i + 1]);
            }
            assert forall|i: int, j: int| 0 <= i < j < rest.len() implies (#[trigger] rest[i]).id != (#[trigger] rest[j]).id by {
                assert(rest[i] == ops[i + 1]);
                assert(rest[j] == ops[j + 1]);
            }
            assert(replayable(w, rest));
            assert(w.ids + op_ids(rest) =~= v.ids + op_ids(ops));
            assert(w.data + op_data(rest) =~= v.data + op_data(ops));
        } else {
            if o.vector.len() == v.dim && !v.ids.contains(o.id) {
                // The failure lies in the rest of the log.
                if replayable(w, rest) {
                    assert forall|i: int| 0 <= i < ops.len() implies (#[trigger] ops[i]).vector.len() == v.dim by {
                        if i > 0 {
                            assert(ops[i] == rest[i - 1]);
                        }
                    }
                    assert forall|i: int| 0 <= i < ops.len() implies !v.ids.contains(#[trigger] ops[i].id) by {
                        if i > 0 {
                            assert(ops[i] == rest[i - 1]);
                            if v.ids.contains(ops[i].id) {
                                let q = choose|q: int| 0 <= q < v.ids.len() && v.ids[q] == ops[i].id;
                                assert(w.ids[q] == ops[i].id);
                            }
                        }
                    }
                    assert forall|i: int, j: int| 0 <= i < j < ops.len() implies (#[trigger] ops[i]).id != (#[trigger] ops[j]).id by {
                        assert(ops[j] == rest[j - 1]);
                        if i == 0 {
                            assert(w.ids[v.ids.len() as int] == o.id);
                        } else {
                            assert(ops[i] == rest[i - 1]);
                        }
                    }
                    assert(false);
                }
            }
        }
    }
}

/// Encode the log entry of inserting `vector` under `id`; `None` when the
/// entry length does not fit its `u32` field.
pub fn encode_insert_entry(id: u64, vector: &[u32]) -> (res: Option<Vec<u8>>)
    ensures
        res is Some <==> loggable(WalOpView { id, vector: vector@ }),
        res matches Some(b) ==> b@ == entry_bytes(WalOpView { id, vector: vector@ }),
{
    let dim = vector.len();
    if dim > 1073741820usize {
        return None;
    }
    let entry_len: u32 = 13 + 4 * (dim as u32);
    let mut out: Vec<u8> = Vec::new();
    write_u32(&mut out, entry_len);
    write_u8(&mut out, 0u8);
    write_u64(&mut out, id);
    write_u32(&mut out, dim as u32);
    write_u32s(&mut out, vector);
    proof {
        assert(out@ =~= entry_bytes(WalOpView { id, vector: vector@ }));
    }
    Some(out)
}

/// Decode one payload.
fn decode_payload(bytes: &[u8], start: usize, len: usize) -> (res: Result<WalOp, WalError>)
    requires
        start + len <= bytes@.len(),
    ensures
        ({
            let p = bytes@.subrange(start as int, start + len);
            match (res, parse_payload(p)) {
                (Ok(op), Ok(v)) => op@ == v,
                (Err(e1), Err(e2)) => e1 == e2,
                _ => false,
            }
        }),
{
    let ghost p = bytes@.subrange(start as int, start + len);
    proof {
        lemma_le_facts();
    }
    if len == 0 {
        return Err(WalError::ZeroLengthPayload);
    }
    let op_type = bytes[start];
    assert(p[0] == op_type);
    if op_type != 0 {
        return Err(WalError::UnknownOp(op_type));
    }
    if len < 13 {
        return Err(WalError::ShortInsertPayload(len));
    }
    let id = match read_u64(bytes, start + 1) {
        Some(x) => x,
        None => {
            assert(false);
            0
        },
    };
    let dim = match read_u32(bytes, start + 9) {
        Some(x) => x,
        None => {
            assert(false);
            0
        },
    };
    assert(p.subrange(1, 9) =~= bytes@.subrange(start + 1, start + 9));
    assert(p.subrange(9, 13) =~= bytes@.subrange(start + 9, start + 13));
    let expected: u64 = 13 + 4 * (dim as u64);
    if len as u64 != expected {
        return Err(WalError::PayloadLengthMismatch { len, expected });
    }
    let vector = match read_u32s(bytes, start + 13, dim as usize) {
        Some(v) => v,
        None => {
            assert(false);
            Vec::new()
        },
    };
    proof {
        let tail = p.subrange(13, p.len() as int);
        assert(tail =~= bytes@.subrange(start + 13, start + 13 + 4 * dim));
        let w = choose|w: Seq<u32>| le32s(w) == tail;
        assert(le32s(vector@) == tail);
        lemma_le32s_injective(w, vector@);
    }
    Ok(WalOp::Insert { id, vector })
}

/// The operations logged in `bytes`, in order.
pub fn replay_wal_bytes(bytes: &[u8]) -> (res: Result<Vec<WalOp>, WalError>)
    ensures
        match (res, parse_log(bytes@)) {
            (Ok(ops), Ok(v)) => ops@.map_values(|o: WalOp| o@) == v,
            (Err(e1), Err(e2)) => e1 == e2,
            _ => false,
        },
{
    let ghost b = bytes@;
    let mut ops: Vec<WalOp> = Vec::new();
    let mut offset: usize = 0;
    let blen = bytes.len();
    proof {
        lemma_le_facts();
        assert(b.subrange(0, b.len() as int) =~= b);
    }
    let mut done = false;
    while offset < blen && !done
        invariant
            blen == b.len(),
            b == bytes@,
            offset <= blen,
            parse_log(b) == prepend(
                ops@.map_values(|o: WalOp| o@),
                parse_log(b.subrange(offset as int, b.len() as int)),
            ),
            done ==> parse_log(b.subrange(offset as int, b.len() as int)) == Ok::<Seq<WalOpView>, WalError>(Seq::empty()),
        decreases blen - offset + (if done { 0int } else { 1int }),
    {
        let ghost rest = b.subrange(offset as int, b.len() as int);
        proof {
            lemma_le_facts();
        }
        match read_u32(bytes, offset) {
            None => {
                assert(rest.len() < 4);
                done = true;
            },
            Some(entry_len) => {
                assert(rest.subrange(0, 4) =~= b.subrange(offset as int, offset + 4));
                assert(spec_u32_from_le_bytes(rest.subrange(0, 4)) == entry_len);
                let len = entry_len as usize;
                if blen - offset - 4 < len {
                    done = true;
                } else {
                    let start = offset + 4;
                    assert(rest.subrange(4, 4 + len) =~= b.subrange(start as int, start + len));
                    match decode_payload(bytes, start, len) {
                        Err(e) => {
                            return Err(e);
                        },
                        Ok(op) => {
                            let ghost before = ops@.map_values(|o: WalOp| o@);
                            ops.push(op);
                            offset = start + len;
                            proof {
                                assert(rest.subrange(4 + len, rest.len() as int) =~= b.subrange(
                                    offset as int,
                                    b.len() as int,
                                ));
                                assert(ops@.map_values(|o: WalOp| o@) =~= before.push(op@));
                                let r2 = parse_log(b.subrange(offset as int, b.len() as int));
                                match r2 {
                                    Ok(tail) => {
                                        assert(before + (seq![op@] + tail) =~= before.push(op@) + tail);
                                    },
                                    Err(_) => {},
                                }
                            }
                        },
                    }
                }
            },
        }
    }
    proof {
        let r = parse_log(b.subrange(offset as int, b.len() as int));
        assert(r == Ok::<Seq<WalOpView>, WalError>(Seq::empty()));
        assert(ops@.map_values(|o: WalOp| o@) + Seq::<WalOpView>::empty() =~= ops@.map_values(|o: WalOp| o@));
    }
    Ok(ops)
}

/// A log of inserts followed by a torn tail replays to exactly those inserts.
pub proof fn lemma_parse_logged_inserts(ops: Seq<WalOpView>, t: Seq<u8>)
    requires
        forall|i: int| 0 <= i < ops.len() ==> loggable(#[trigger] ops[i]),
        torn_tail(t),
    ensures
        parse_log(log_bytes(ops) + t) == Ok::<Seq<WalOpView>, WalError>(ops),
    decreases ops.len(),
{
    lemma_le_facts();
    let f = |op: WalOpView| entry_bytes(op);
    if ops.len() == 0 {
        assert(ops =~= Seq::<WalOpView>::empty());
        assert(log_bytes(ops) + t =~= t);
        if t.len() >= 4 {
            assert(spec_u32_from_le_bytes(t.subrange(0, 4)) > t.len() - 4);
        }
    } else {
        let op = ops[0];
        let rest = ops.subrange(1, ops.len() as int);
        assert(ops =~= seq![op] + rest);
        lemma_concat_append(seq![op], rest, f);
        assert(seq![op].drop_last() =~= Seq::<WalOpView>::empty());
        reveal_with_fuel(concat_map, 2);
        assert(concat_map(seq![op], f) =~= entry_bytes(op));
        let e = entry_bytes(op);
        let b = log_bytes(ops) + t;
        assert(b =~= e + (log_bytes(rest) + t));
        lemma_le32s_len(op.vector);
        let n = op.vector.len();
        assert(e.len() == 4 + payload_len(n));
        assert(b.subrange(0, 4) =~= le32(payload_len(n) as u32));
        assert(spec_u32_from_le_bytes(b.subrange(0, 4)) == payload_len(n));
        let p = b.subrange(4, (4 + payload_len(n)) as int);
        assert(p =~= e.subrange(4, e.len() as int));
        assert(p[0] == 0);
        assert(p.subrange(1, 9) =~= le64(op.id));
        assert(p.subrange(9, 13) =~= le32(n as u32));
        assert(p.subrange(13, p.len() as int) =~= le32s(op.vector));
        let w = choose|w: Seq<u32>| le32s(w) == p.subrange(13, p.len() as int);
        lemma_le32s_injective(w, op.vector);
        assert(parse_payload(p) == Ok::<WalOpView, WalError>(op));
        assert(b.subrange((4 + payload_len(n)) as int, b.len() as int) =~= log_bytes(rest) + t);
        assert forall|i: int| 0 <= i < rest.len() implies loggable(#[trigger] rest[i]) by {
            assert(rest[i] == ops[i + 1]);
        }
        lemma_parse_logged_inserts(rest, t);
        assert(b.len() >= 4);
        assert(b.len() - 4 >= payload_len(n));
        assert(parse_log(b) == prepend(seq![op], parse_log(b.subrange((4 + payload_len(n)) as int, b.len() as int))));
        assert(seq![op] + rest =~= ops);
    }
}

/// Apply logged inserts in order to `index`.
pub fn replay_into(index: &mut FlatIndex, ops: &[WalOp]) -> (res: Result<(), ReplayError>)
    requires
        old(index).wf(),
        old(index).batch.num_vectors + ops@.len() <= usize::MAX,
    ensures
        final(index).wf(),
        match (res, replay_onto(old(index)@, ops@.map_values(|o: WalOp| o@))) {
            (Ok(()), Ok(v)) => final(index)@ == v,
            (Err(e1), Err(e2)) => e1 == e2,
            _ => false,
        },
{
    let ghost all = ops@.map_values(|o: WalOp| o@);
    assert(all.subrange(0, all.len() as int) =~= all);
    let mut i: usize = 0;
    while i < ops.len()
        invariant
            i <= ops@.len(),
            index.wf(),
            index.batch.num_vectors + (ops@.len() - i) <= usize::MAX,
            all == ops@.map_values(|o: WalOp| o@),
            replay_onto(old(index)@, all) == replay_onto(index@, all.subrange(i as int, all.len() as int)),
        decreases ops@.len() - i,
    {
        let ghost cur = all.subrange(i as int, all.len() as int);
        assert(cur[0] == ops@[i as int]@);
        match &ops[i] {
            WalOp::Insert { id, vector } => {
                if vector.len() != index.dim() {
                    return Err(ReplayError::DimensionMismatch { got: vector.len(), expected: index.dim() });
                }
                if position_of(index.ids.as_slice(), *id).is_some() {
                    return Err(ReplayError::DuplicateId(*id));
                }
                index.add(*id, vector.as_slice());
                proof {
                    assert(cur.subrange(1, cur.len() as int) =~= all.subrange(i + 1, all.len() as int));
                }
            },
        }
        i = i + 1;
    }
    Ok(())
}

/// Rebuild a flat index from a snapshot file's bytes and the bytes of its
/// write-ahead log: decode the snapshot, replay the log, apply its inserts.
pub fn recover_flat_index(snapshot: &[u8], wal: &[u8]) -> (res: Result<FlatIndex, RecoveryError>)
    ensures
        res matches Ok(index) ==> index.wf(),
        header_check(snapshot@, INDEX_TYPE_FLAT) is Err ==> res == Err::<FlatIndex, RecoveryError>(
            RecoveryError::Snapshot(header_check(snapshot@, INDEX_TYPE_FLAT)->Err_0),
        ),
        forall|v: FlatIndexView|
            flat_encodable(v) && crate::codec::is_prefix(#[trigger] flat_bytes(v), snapshot@) ==> match parse_log(wal@) {
                Err(e) => res == Err::<FlatIndex, RecoveryError>(RecoveryError::Log(e)),
                Ok(ops) => ops.len() + v.num_vectors <= usize::MAX ==> match replay_onto(v, ops) {
                    Ok(w) => (res matches Ok(index) && index@ == w),
                    Err(e) => res == Err::<FlatIndex, RecoveryError>(RecoveryError::Replay(e)),
                },
            },
{
    let mut index = match decode_flat_index(snapshot) {
        Ok(ix) => ix,
        Err(e) => return Err(RecoveryError::Snapshot(e)),
    };
    let ops = match replay_wal_bytes(wal) {
        Ok(ops) => ops,
        Err(e) => return Err(RecoveryError::Log(e)),
    };
    if index.len() > usize::MAX - ops.len() {
        return Err(RecoveryError::TooManyVectors);
    }
    match replay_into(&mut index, ops.as_slice()) {
        Ok(()) => Ok(index),
        Err(e) => Err(RecoveryError::Replay(e)),
    }
}

} // verus!
