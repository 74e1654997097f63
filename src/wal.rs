//! Write-ahead log records: CRC-32 protected encoding of puts and deletes.
use vstd::prelude::*;

use crate::bytes::{compare_bytes, le_u32_at, push_bytes, push_u32_le, read_u32_le, u32_le};

verus! {

/// Operation byte of a put record.
pub const OP_PUT: u8 = 1;

/// Operation byte of a delete record.
pub const OP_DELETE: u8 = 2;

/// Reflected IEEE 802.3 polynomial of CRC-32.
pub const CRC_POLY: u32 = 0xEDB8_8320;

/// One logged write.
#[derive(Debug, Clone)]
pub enum WalEntry {
    Put { key: Vec<u8>, value: Vec<u8> },
    Delete { key: Vec<u8> },
}

/// Mathematical form of a logged write.
pub enum LogOp {
    Put { key: Seq<u8>, value: Seq<u8> },
    Delete { key: Seq<u8> },
}

impl View for WalEntry {
    type V = LogOp;

    open spec fn view(&self) -> LogOp {
        match self {
            WalEntry::Put { key, value } => LogOp::Put { key: key@, value: value@ },
            WalEntry::Delete { key } => LogOp::Delete { key: key@ },
        }
    }
}

impl PartialEq for WalEntry {
    fn eq(&self, other: &WalEntry) -> (r: bool) {
        match (self, other) {
            (WalEntry::Put { key: k1, value: v1 }, WalEntry::Put { key: k2, value: v2 }) => {
                compare_bytes(k1.as_slice(), k2.as_slice()) == 0 && compare_bytes(
                    v1.as_slice(),
                    v2.as_slice(),
                ) == 0
            },
            (WalEntry::Delete { key: k1 }, WalEntry::Delete { key: k2 }) => {
                compare_bytes(k1.as_slice(), k2.as_slice()) == 0
            },
            _ => false,
        }
    }
}

impl vstd::std_specs::cmp::PartialEqSpecImpl for WalEntry {
    open spec fn obeys_eq_spec() -> bool {
        true
    }

    open spec fn eq_spec(&self, other: &WalEntry) -> bool {
        self@ == other@
    }
}

/// Errors of the write-ahead log.
#[derive(Debug)]
pub enum WalError {
    Io(std::io::Error),
    Corrupted(String),
    /// The entry's lengths do not fit the record's 32-bit length fields.
    TooLarge,
}

// ---------------------------------------------------------------- CRC-32

/// One shift of the bitwise CRC-32 register.
pub open spec fn crc_shift(c: u32) -> u32 {
    if c & 1 != 0 {
        (c >> 1) ^ CRC_POLY
    } else {
        c >> 1
    }
}

/// `n` shifts of the CRC-32 register.
pub open spec fn crc_shifts(c: u32, n: nat) -> u32
    decreases n,
{
    if n == 0 {
        c
    } else {
        crc_shifts(crc_shift(c), (n - 1) as nat)
    }
}

/// The CRC-32 register after feeding `data`, starting from all ones.
pub open spec fn crc_register(data: Seq<u8>) -> u32
    decreases data.len(),
{
    if data.len() == 0 {
        0xFFFF_FFFF
    } else {
        crc_shifts(crc_register(data.drop_last()) ^ (data.last() as u32), 8)
    }
}

/// Standard CRC-32 of `data`.
pub open spec fn crc32_of(data: Seq<u8>) -> u32 {
    !crc_register(data)
}

/// Standard CRC-32 (reflected polynomial `0xEDB88320`, initial and final value all ones).
pub fn crc32(data: &[u8]) -> (r: u32)
    ensures
        r == crc32_of(data@),
{
    let mut crc: u32 = 0xFFFF_FFFF;
    let mut i: usize = 0;
    while i < data.len()
        invariant
            0 <= i <= data@.len(),
            crc == crc_register(data@.subrange(0, i as int)),
        decreases data@.len() - i,
    {
        let ghost prefix = data@.subrange(0, i as int + 1);
        assert(prefix.drop_last() =~= data@.subrange(0, i as int));
        crc = crc ^ (data[i] as u32);
        let ghost target = crc_shifts(crc, 8);
        let mut j: u32 = 0;
        while j < 8
            invariant
                j <= 8,
                crc_shifts(crc, (8 - j) as nat) == target,
            decreases 8 - j,
        {
            if crc & 1 != 0 {
                crc = (crc >> 1) ^ CRC_POLY;
            } else {
                crc = crc >> 1;
            }
            j = j + 1;
        }
        i = i + 1;
    }
    assert(data@.subrange(0, data@.len() as int) =~= data@);
    !crc
}

// ---------------------------------------------------------------- record layout

/// Key of a logged write.
pub open spec fn op_key(op: LogOp) -> Seq<u8> {
    match op {
        LogOp::Put { key, .. } => key,
        LogOp::Delete { key } => key,
    }
}

/// Value of a logged write; empty for a delete.
pub open spec fn op_value(op: LogOp) -> Seq<u8> {
    match op {
        LogOp::Put { value, .. } => value,
        LogOp::Delete { .. } => Seq::empty(),
    }
}

/// Operation byte of a logged write.
pub open spec fn op_code(op: LogOp) -> u8 {
    match op {
        LogOp::Put { .. } => OP_PUT,
        LogOp::Delete { .. } => OP_DELETE,
    }
}

/// The record's length field: operation byte, both length fields, key and value.
pub open spec fn body_len(op: LogOp) -> int {
    9 + op_key(op).len() as int + op_value(op).len() as int
}

/// The write fits a record's 32-bit length fields.
pub open spec fn encodable(op: LogOp) -> bool {
    body_len(op) <= u32::MAX
}

/// The part of a record that its checksum covers:
/// `[length][op][key_len][val_len][key][value]`.
pub open spec fn record_tail(op: LogOp) -> Seq<u8> {
    u32_le(body_len(op) as u32) + seq![op_code(op)] + u32_le(op_key(op).len() as u32) + u32_le(
        op_value(op).len() as u32,
    ) + op_key(op) + op_value(op)
}

/// The full record: `[crc32][length][op][key_len][val_len][key][value]`.
pub open spec fn encode_record(op: LogOp) -> Seq<u8> {
    u32_le(crc32_of(record_tail(op))) + record_tail(op)
}

/// What reading a record at some position finds.
pub enum RecordParse {
    /// Fewer bytes remain than the record needs: a torn write at the end of the log.
    Incomplete,
    /// A checksum mismatch or a malformed record.
    Corrupt,
    /// A whole record of `len` bytes holding `op`.
    Complete { op: LogOp, len: nat },
}

/// Reads the record that starts at `p` in `s`.
pub open spec fn parse_record_at(s: Seq<u8>, p: int) -> RecordParse {
    if s.len() - p < 8 {
        RecordParse::Incomplete
    } else {
        let n = le_u32_at(s, p + 4) as int;
        if s.len() - p - 8 < n {
            RecordParse::Incomplete
        } else if crc32_of(s.subrange(p + 4, p + 8 + n)) != le_u32_at(s, p) {
            RecordParse::Corrupt
        } else if n < 9 {
            RecordParse::Corrupt
        } else {
            let code = s[p + 8];
            let klen = le_u32_at(s, p + 9) as int;
            let vlen = le_u32_at(s, p + 13) as int;
            let key = s.subrange(p + 17, p + 17 + klen);
            if 9 + klen + vlen != n {
                RecordParse::Corrupt
            } else if code == OP_PUT {
                RecordParse::Complete {
                    op: LogOp::Put { key, value: s.subrange(p + 17 + klen, p + 8 + n) },
                    len: (8 + n) as nat,
                }
            } else if code == OP_DELETE && vlen == 0 {
                RecordParse::Complete { op: LogOp::Delete { key }, len: (8 + n) as nat }
            } else {
                RecordParse::Corrupt
            }
        }
    }
}

/// Encodes one entry as a record.
pub fn encode_entry(entry: &WalEntry) -> (r: Result<Vec<u8>, WalError>)
    ensures
        encodable(entry@) ==> r is Ok && r->Ok_0@ == encode_record(entry@),
        !encodable(entry@) ==> r is Err && r->Err_0 is TooLarge,
{
    let (code, key, value): (u8, &[u8], &[u8]) = match entry {
        WalEntry::Put { key, value } => (OP_PUT, key.as_slice(), value.as_slice()),
        WalEntry::Delete { key } => (OP_DELETE, key.as_slice(), &[]),
    };
    assert(key@ == op_key(entry@) && value@ == op_value(entry@) && code == op_code(entry@));
    if key.len() > 0xFFFF_FFFF - 9 || value.len() > 0xFFFF_FFFF - 9 - key.len() {
        return Err(WalError::TooLarge);
    }
    let length = (9 + key.len() + value.len()) as u32;
    let mut tail: Vec<u8> = Vec::new();
    push_u32_le(&mut tail, length);
    tail.push(code);
    push_u32_le(&mut tail, key.len() as u32);
    push_u32_le(&mut tail, value.len() as u32);
    push_bytes(&mut tail, key);
    push_bytes(&mut tail, value);
    assert(tail@ =~= record_tail(entry@));
    let checksum = crc32(tail.as_slice());
    let mut out: Vec<u8> = Vec::new();
    push_u32_le(&mut out, checksum);
    push_bytes(&mut out, tail.as_slice());
    Ok(out)
}

/// Reads the record that starts at `pos`: `Ok(None)` where the bytes end before the
/// record does, the entry and the position after it where a whole valid record
/// stands there, and `Corrupted` on a checksum mismatch or a malformed record.
pub fn decode_entry_at(buf: &[u8], pos: usize) -> (r: Result<Option<(WalEntry, usize)>, WalError>)
    requires
        pos <= buf@.len(),
    ensures
        match parse_record_at(buf@, pos as int) {
            RecordParse::Incomplete => r is Ok && r->Ok_0 is None,
            RecordParse::Corrupt => r is Err && r->Err_0 is Corrupted,
            RecordParse::Complete { op, len } => {
                &&& r is Ok
                &&& r->Ok_0 is Some
                &&& r->Ok_0->Some_0.0@ == op
                &&& r->Ok_0->Some_0.1 == pos + len
            },
        },
{
    let avail = buf.len() - pos;
    if avail < 8 {
        return Ok(None);
    }
    let stored = read_u32_le(buf, pos);
    let n = read_u32_le(buf, pos + 4) as usize;
    if avail - 8 < n {
        return Ok(None);
    }
    let end = pos + 8 + n;
    let actual = crc32(&buf[pos + 4..end]);
    if actual != stored {
        return Err(WalError::Corrupted("checksum mismatch".to_string()));
    }
    if n < 9 {
        return Err(WalError::Corrupted("record too short".to_string()));
    }
    let code = buf[pos + 8];
    let klen = read_u32_le(buf, pos + 9) as usize;
    let vlen = read_u32_le(buf, pos + 13) as usize;
    if klen > n - 9 || vlen != n - 9 - klen {
        return Err(WalError::Corrupted("record lengths disagree".to_string()));
    }
    let key = vstd::slice::slice_to_vec(&buf[pos + 17..pos + 17 + klen]);
    if code == OP_PUT {
        let value = vstd::slice::slice_to_vec(&buf[pos + 17 + klen..end]);
        Ok(Some((WalEntry::Put { key, value }, end)))
    } else if code == OP_DELETE && vlen == 0 {
        Ok(Some((WalEntry::Delete { key }, end)))
    } else {
        Err(WalError::Corrupted("unknown operation".to_string()))
    }
}

/// Reads the record at the start of `buf`.
pub fn decode_entry(buf: &[u8]) -> (r: Result<Option<WalEntry>, WalError>)
    ensures
        match parse_record_at(buf@, 0) {
            RecordParse::Incomplete => r is Ok && r->Ok_0 is None,
            RecordParse::Corrupt => r is Err && r->Err_0 is Corrupted,
            RecordParse::Complete { op, .. } => r is Ok && r->Ok_0 is Some && r->Ok_0->Some_0@
                == op,
        },
{
    match decode_entry_at(buf, 0) {
        Ok(Some((entry, _))) => Ok(Some(entry)),
        Ok(None) => Ok(None),
        Err(e) => Err(e),
    }
}

// ---------------------------------------------------------------- whole logs

/// The records of `ops`, one after another.
pub open spec fn encode_log(ops: Seq<LogOp>) -> Seq<u8>
    decreases ops.len(),
{
    if ops.len() == 0 {
        Seq::empty()
    } else {
        encode_record(ops[0]) + encode_log(ops.drop_first())
    }
}

/// `ops` in front of what the rest of a log holds; a corrupt rest stays corrupt.
pub open spec fn prepend_ops(ops: Seq<LogOp>, rest: Option<Seq<LogOp>>) -> Option<Seq<LogOp>> {
    match rest {
        Some(r) => Some(ops + r),
        None => None,
    }
}

/// The writes that the records from `p` to the end of `s` hold, up to a torn record
/// at the end; `None` where a corrupt record comes first.
pub open spec fn parse_log_from(s: Seq<u8>, p: int) -> Option<Seq<LogOp>>
    decreases s.len() - p,
{
    if p < 0 || p > s.len() {
        None
    } else {
        match parse_record_at(s, p) {
            RecordParse::Incomplete => Some(Seq::empty()),
            RecordParse::Corrupt => None,
            RecordParse::Complete { op, len } => {
                if len > 0 && p + len <= s.len() {
                    prepend_ops(seq![op], parse_log_from(s, p + len))
                } else {
                    None
                }
            },
        }
    }
}

/// Reads every record of a log segment, in order. A torn record at the end ends the
/// log cleanly; a corrupt record fails the whole read.
pub fn decode_log(buf: &[u8]) -> (r: Result<Vec<WalEntry>, WalError>)
    ensures
        match parse_log_from(buf@, 0) {
            Some(ops) => r is Ok && r->Ok_0@.map_values(|e: WalEntry| e@) == ops,
            None => r is Err && r->Err_0 is Corrupted,
        },
{
    let mut out: Vec<WalEntry> = Vec::new();
    let mut pos: usize = 0;
    proof {
        match parse_log_from(buf@, 0) {
            Some(ops) => {
                assert(Seq::<LogOp>::empty() + ops =~= ops);
            },
            None => {},
        }
        assert(out@.map_values(|e: WalEntry| e@) =~= Seq::<LogOp>::empty());
    }
    loop
        invariant
            pos <= buf@.len(),
            parse_log_from(buf@, 0) == prepend_ops(
                out@.map_values(|e: WalEntry| e@),
                parse_log_from(buf@, pos as int),
            ),
        decreases buf@.len() - pos,
    {
        match decode_entry_at(buf, pos) {
            Ok(Some((entry, next))) => {
                let ghost done = out@.map_values(|e: WalEntry| e@);
                let ghost rest = parse_log_from(buf@, next as int);
                out.push(entry);
                proof {
                    assert(out@.map_values(|e: WalEntry| e@) =~= done.push(entry@));
                    match rest {
                        Some(r) => {
                            assert(done + (seq![entry@] + r) =~= done.push(entry@) + r);
                        },
                        None => {},
                    }
                }
                pos = next;
            },
            Ok(None) => {
                proof {
                    let done = out@.map_values(|e: WalEntry| e@);
                    assert(done + Seq::<LogOp>::empty() =~= done);
                }
                return Ok(out);
            },
            Err(e) => {
                return Err(e);
            },
        }
    }
}

/// A record stands whole at `p`: reading there gives back its write and its length.
pub proof fn lemma_record_parses(op: LogOp, s: Seq<u8>, p: int)
    requires
        encodable(op),
        0 <= p,
        p + encode_record(op).len() <= s.len(),
        s.subrange(p, p + encode_record(op).len()) == encode_record(op),
    ensures
        parse_record_at(s, p) == (RecordParse::Complete { op, len: encode_record(op).len() }),
{
    let key = op_key(op);
    let value = op_value(op);
    let n = body_len(op);
    let tail = record_tail(op);
    let rec = encode_record(op);
    let crc = crc32_of(tail);
    assert(tail.len() == 4 + n);
    assert(rec.len() == 8 + n);
    assert forall|j: int| 0 <= j < rec.len() implies s[p + j] == #[trigger] rec[j] by {
        assert(s.subrange(p, p + rec.len())[j] == s[p + j]);
    }
    assert(s.subrange(p, p + 4) =~= u32_le(crc));
    crate::bytes::lemma_u32_le_read(crc, s, p);
    assert forall|j: int| 0 <= j < tail.len() implies s[p + 4 + j] == #[trigger] tail[j] by {
        assert(rec[4 + j] == tail[j]);
    }
    assert(s.subrange(p + 4, p + 8 + n) =~= tail);
    assert(tail.subrange(0, 4) =~= u32_le(n as u32));
    assert(s.subrange(p + 4, p + 8) =~= u32_le(n as u32));
    crate::bytes::lemma_u32_le_read(n as u32, s, p + 4);
    let a = u32_le(n as u32);
    let kl = u32_le(key.len() as u32);
    let vl = u32_le(value.len() as u32);
    assert(tail == a + seq![op_code(op)] + kl + vl + key + value);
    assert(tail[4] == op_code(op));
    assert(s[p + 8] == op_code(op));
    assert(tail.subrange(5, 9) =~= kl);
    assert(tail.subrange(9, 13) =~= vl);
    assert(tail.subrange(13, 13 + key.len() as int) =~= key);
    assert(tail.subrange(13 + key.len() as int, 4 + n) =~= value);
    assert(s.subrange(p + 9, p + 13) =~= u32_le(key.len() as u32));
    crate::bytes::lemma_u32_le_read(key.len() as u32, s, p + 9);
    assert(s.subrange(p + 13, p + 17) =~= u32_le(value.len() as u32));
    crate::bytes::lemma_u32_le_read(value.len() as u32, s, p + 13);
    assert(s.subrange(p + 17, p + 17 + key.len()) =~= key);
    assert(s.subrange(p + 17 + key.len(), p + 8 + n) =~= value);
}

/// The records of `ops` stand at `p`: reading from `p` gives `ops`, then whatever
/// follows them.
pub proof fn lemma_log_parses(ops: Seq<LogOp>, s: Seq<u8>, p: int)
    requires
        forall|i: int| 0 <= i < ops.len() ==> encodable(#[trigger] ops[i]),
        0 <= p,
        p + encode_log(ops).len() <= s.len(),
        s.subrange(p, p + encode_log(ops).len()) == encode_log(ops),
    ensures
        parse_log_from(s, p) == prepend_ops(ops, parse_log_from(s, p + encode_log(ops).len())),
    decreases ops.len(),
{
    if ops.len() == 0 {
        match parse_log_from(s, p) {
            Some(r) => {
                assert(ops + r =~= r);
            },
            None => {},
        }
    } else {
        let rec = encode_record(ops[0]);
        let rest = ops.drop_first();
        let whole = encode_log(ops);
        assert(whole == rec + encode_log(rest));
        assert(s.subrange(p, p + rec.len()) =~= whole.subrange(0, rec.len() as int));
        assert(whole.subrange(0, rec.len() as int) =~= rec);
        assert(encodable(ops[0]));
        lemma_record_parses(ops[0], s, p);
        assert forall|i: int| 0 <= i < rest.len() implies encodable(#[trigger] rest[i]) by {
            assert(rest[i] == ops[i + 1]);
        }
        assert(s.subrange(p + rec.len(), p + whole.len()) =~= whole.subrange(
            rec.len() as int,
            whole.len() as int,
        ));
        assert(whole.subrange(rec.len() as int, whole.len() as int) =~= encode_log(rest));
        lemma_log_parses(rest, s, p + rec.len());
        match parse_log_from(s, p + whole.len()) {
            Some(r) => {
                assert(seq![ops[0]] + (rest + r) =~= ops + r);
            },
            None => {},
        }
    }
}

/// Decoding an encoded log gives back exactly the writes that were encoded, in order.
pub proof fn lemma_log_round_trip(ops: Seq<LogOp>)
    requires
        forall|i: int| 0 <= i < ops.len() ==> encodable(#[trigger] ops[i]),
    ensures
        parse_log_from(encode_log(ops), 0) == Some(ops),
{
    let s = encode_log(ops);
    assert(s.subrange(0, s.len() as int) =~= s);
    lemma_log_parses(ops, s, 0);
    assert(ops + Seq::<LogOp>::empty() =~= ops);
}

/// The records of `a + b` are those of `a` followed by those of `b`.
pub proof fn lemma_encode_log_append(a: Seq<LogOp>, b: Seq<LogOp>)
    ensures
        encode_log(a + b) == encode_log(a) + encode_log(b),
    decreases a.len(),
{
    if a.len() == 0 {
        assert(a + b =~= b);
        assert(encode_log(a) + encode_log(b) =~= encode_log(b));
    } else {
        assert((a + b).drop_first() =~= a.drop_first() + b);
        lemma_encode_log_append(a.drop_first(), b);
        assert(encode_log(a + b) =~= encode_log(a) + encode_log(b));
    }
}

/// The records of `ops` around record `k`: those before it, it, and those after it.
proof fn lemma_log_layout(ops: Seq<LogOp>, k: int)
    requires
        0 <= k < ops.len(),
    ensures
        encode_log(ops) == encode_log(ops.take(k)) + encode_record(ops[k]) + encode_log(
            ops.skip(k + 1),
        ),
        encode_log(ops.take(k + 1)) == encode_log(ops.take(k)) + encode_record(ops[k]),
{
    let head = ops.take(k);
    let op = ops[k];
    assert(ops =~= head + ops.skip(k));
    lemma_encode_log_append(head, ops.skip(k));
    assert(ops.skip(k).drop_first() =~= ops.skip(k + 1));
    assert(ops.skip(k)[0] == op);
    assert(encode_log(ops.skip(k)) == encode_record(op) + encode_log(ops.skip(k + 1)));
    assert(ops.take(k + 1) =~= head + seq![op]);
    lemma_encode_log_append(head, seq![op]);
    let single = seq![op];
    assert(single[0] == op);
    assert(single.drop_first() =~= Seq::<LogOp>::empty());
    assert(encode_log(Seq::<LogOp>::empty()) == Seq::<u8>::empty());
    assert(encode_log(single) == encode_record(op) + encode_log(single.drop_first()));
    assert(encode_log(single) =~= encode_record(op));
    assert(encode_log(ops) =~= encode_log(head) + encode_record(op) + encode_log(ops.skip(k + 1)));
}

/// Bytes that end before a record does read as a torn record.
proof fn lemma_torn_record(op: LogOp, t: Seq<u8>, q: int)
    requires
        encodable(op),
        0 <= q <= t.len(),
        t.len() < q + encode_record(op).len(),
        forall|j: int| 0 <= j < t.len() - q ==> t[q + j] == #[trigger] encode_record(op)[j],
    ensures
        parse_record_at(t, q) is Incomplete,
{
    let rec = encode_record(op);
    let n = body_len(op);
    assert(rec.len() == 8 + n);
    if t.len() - q >= 8 {
        assert forall|j: int| 0 <= j < 4 implies t.subrange(q + 4, q + 8)[j] == #[trigger] u32_le(
            n as u32,
        )[j] by {
            assert(t[q + 4 + j] == rec[4 + j]);
            assert(record_tail(op)[j] == u32_le(n as u32)[j]);
        }
        assert(t.subrange(q + 4, q + 8) =~= u32_le(n as u32));
        crate::bytes::lemma_u32_le_read(n as u32, t, q + 4);
    }
}

/// Cutting a log inside record `k` (a write torn by a crash) reads back the `k`
/// records before the cut and then ends cleanly.
pub proof fn lemma_log_torn_tail(ops: Seq<LogOp>, k: int, cut: int)
    requires
        forall|i: int| 0 <= i < ops.len() ==> encodable(#[trigger] ops[i]),
        0 <= k < ops.len(),
        encode_log(ops.take(k)).len() <= cut < encode_log(ops.take(k + 1)).len(),
    ensures
        parse_log_from(encode_log(ops).subrange(0, cut), 0) == Some(ops.take(k)),
{
    let head = ops.take(k);
    let rec = encode_record(ops[k]);
    let full = encode_log(ops);
    let q = encode_log(head).len() as int;
    lemma_log_layout(ops, k);
    let t = full.subrange(0, cut);
    assert(t.subrange(0, q) =~= encode_log(head));
    assert forall|i: int| 0 <= i < head.len() implies encodable(#[trigger] head[i]) by {
        assert(head[i] == ops[i]);
    }
    lemma_log_parses(head, t, 0);
    assert forall|j: int| 0 <= j < t.len() - q implies t[q + j] == #[trigger] rec[j] by {
        assert(t[q + j] == full[q + j]);
    }
    lemma_torn_record(ops[k], t, q);
    assert(head + Seq::<LogOp>::empty() =~= head);
}

/// Reading an encoded log one record at a time: at the offset where the first `j`
/// records end, `decode_entry_at` finds record `j` (the next offset being where it
/// ends), and at the end of the log it finds a clean end.
pub proof fn lemma_successive_records(ops: Seq<LogOp>, j: int)
    requires
        forall|i: int| 0 <= i < ops.len() ==> encodable(#[trigger] ops[i]),
        0 <= j <= ops.len(),
    ensures
        j < ops.len() ==> parse_record_at(encode_log(ops), encode_log(ops.take(j)).len() as int)
            == (RecordParse::Complete { op: ops[j], len: encode_record(ops[j]).len() }),
        j < ops.len() ==> encode_log(ops.take(j + 1)).len() == encode_log(ops.take(j)).len()
            + encode_record(ops[j]).len(),
        j == ops.len() ==> parse_record_at(encode_log(ops), encode_log(ops.take(j)).len() as int)
            is Incomplete,
{
    let full = encode_log(ops);
    if j < ops.len() {
        lemma_log_layout(ops, j);
        let q = encode_log(ops.take(j)).len() as int;
        let rec = encode_record(ops[j]);
        assert(full.subrange(q, q + rec.len()) =~= rec);
        lemma_record_parses(ops[j], full, q);
    } else {
        assert(ops.take(j) =~= ops);
    }
}

/// Flipping any bit of a record's checksum field makes the record read as corrupt.
pub proof fn lemma_crc_flip_detected(op: LogOp, i: int, bit: u8)
    requires
        encodable(op),
        0 <= i < 4,
        bit < 8,
    ensures
        parse_record_at(
            encode_record(op).update(i, encode_record(op)[i] ^ (1u8 << bit)),
            0,
        ) is Corrupt,
{
    let s = encode_record(op);
    let b = s[i];
    let t = s.update(i, b ^ (1u8 << bit));
    assert(s.subrange(0, s.len() as int) =~= s);
    lemma_record_parses(op, s, 0);
    let n = le_u32_at(s, 4) as int;
    assert(le_u32_at(t, 4) == n);
    assert(t.subrange(4, 8 + n) =~= s.subrange(4, 8 + n));
    assert(b ^ (1u8 << bit) != b) by (bit_vector)
        requires
            bit < 8,
    ;
    if le_u32_at(t, 0) == le_u32_at(s, 0) {
        crate::bytes::lemma_le_u32_injective(t, 0, s, 0);
        assert(t.subrange(0, 4)[i] == s.subrange(0, 4)[i]);
    }
}

} // verus!
