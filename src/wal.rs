use vstd::prelude::*;
use crate::pattern::same_text;
use crate::tree::{set_value, delete_value, push_value, set_path, delete_path, push_path};
use crate::value::{Json, Value};

verus! {

/// CRC-32 (IEEE) of a byte sequence.
pub uninterp spec fn crc32(b: Seq<u8>) -> u32;

/// Relies on crc32fast::hash: the CRC-32 checksum of the bytes, a function of them alone.
#[verifier::external_body]
fn crc32_of(b: &[u8]) -> (r: u32)
    ensures
        r == crc32(b@),
{
    crc32fast::hash(b)
}

/// The kind of change a log record carries.
#[derive(Clone, Copy, Debug, PartialEq, Eq, Structural)]
pub enum WalOpType {
    Put,
    Delete,
}

/// One logged change to the tree.
#[derive(Debug)]
pub struct WalOp {
    pub timestamp: u64,
    pub op_type: WalOpType,
    pub path: String,
    pub value: Option<Value>,
}

/// How the log writer batches and syncs.
#[derive(Clone, Copy, Debug)]
pub struct WalConfig {
    /// Records gathered before a write is forced.
    pub batch_size: usize,
    /// Longest wait, in milliseconds, before pending records are written.
    pub flush_interval_ms: u64,
    /// Whether each write is followed by an fsync.
    pub fsync: bool,
}

impl Default for WalConfig {
    fn default() -> (r: WalConfig)
        ensures
            r.batch_size == 1000 && r.flush_interval_ms == 10 && r.fsync,
    {
        WalConfig { batch_size: 1000, flush_interval_ms: 10, fsync: true }
    }
}

/// How durable writes are.
#[derive(Clone, Copy, Debug, PartialEq, Eq, Structural)]
pub enum DurabilityMode {
    /// No log; changes persist only on save.
    Off,
    /// Log written at least every 100 ms.
    Lazy,
    /// Log written at least every 10 ms.
    Batched,
    /// Every change written and synced on its own.
    Sync,
}

impl DurabilityMode {
    pub open spec fn from_str_spec(s: Seq<char>) -> DurabilityMode {
        if s == "lazy"@ {
            DurabilityMode::Lazy
        } else if s == "batched"@ {
            DurabilityMode::Batched
        } else if s == "sync"@ {
            DurabilityMode::Sync
        } else {
            DurabilityMode::Off
        }
    }

    /// `"lazy"`, `"batched"` and `"sync"` name their modes; anything else means no log.
    pub fn from_str(s: &str) -> (r: DurabilityMode)
        ensures
            r == Self::from_str_spec(s@),
    {
        if same_text(s, "lazy") {
            DurabilityMode::Lazy
        } else if same_text(s, "batched") {
            DurabilityMode::Batched
        } else if same_text(s, "sync") {
            DurabilityMode::Sync
        } else {
            DurabilityMode::Off
        }
    }

    /// The writer settings of the mode; none where the mode keeps no log.
    pub fn to_config(&self) -> (r: Option<WalConfig>)
        ensures
            *self == DurabilityMode::Off <==> r is None,
            *self == DurabilityMode::Lazy ==> r == Some(
                WalConfig { batch_size: 1000, flush_interval_ms: 100, fsync: true },
            ),
            *self == DurabilityMode::Batched ==> r == Some(
                WalConfig { batch_size: 1000, flush_interval_ms: 10, fsync: true },
            ),
            *self == DurabilityMode::Sync ==> r == Some(
                WalConfig { batch_size: 1, flush_interval_ms: 0, fsync: true },
            ),
    {
        match self {
            DurabilityMode::Off => None,
            DurabilityMode::Lazy => Some(WalConfig { batch_size: 1000, flush_interval_ms: 100, fsync: true }),
            DurabilityMode::Batched => Some(WalConfig { batch_size: 1000, flush_interval_ms: 10, fsync: true }),
            DurabilityMode::Sync => Some(WalConfig { batch_size: 1, flush_interval_ms: 0, fsync: true }),
        }
    }
}

pub open spec fn u32_bytes(n: u32) -> Seq<u8> {
    seq![
        (n & 0xff) as u8,
        ((n >> 8u32) & 0xff) as u8,
        ((n >> 16u32) & 0xff) as u8,
        ((n >> 24u32) & 0xff) as u8,
    ]
}

pub open spec fn u64_bytes(n: u64) -> Seq<u8> {
    seq![
        (n & 0xff) as u8,
        ((n >> 8u64) & 0xff) as u8,
        ((n >> 16u64) & 0xff) as u8,
        ((n >> 24u64) & 0xff) as u8,
        ((n >> 32u64) & 0xff) as u8,
        ((n >> 40u64) & 0xff) as u8,
        ((n >> 48u64) & 0xff) as u8,
        ((n >> 56u64) & 0xff) as u8,
    ]
}

/// The little-endian number held by four bytes.
pub open spec fn u32_of(b0: u8, b1: u8, b2: u8, b3: u8) -> u32 {
    (b0 as u32) | ((b1 as u32) << 8u32) | ((b2 as u32) << 16u32) | ((b3 as u32) << 24u32)
}

/// The little-endian number held by eight bytes.
pub open spec fn u64_of(b: Seq<u8>) -> u64 {
    (b[0] as u64) | ((b[1] as u64) << 8u64) | ((b[2] as u64) << 16u64) | ((b[3] as u64) << 24u64)
        | ((b[4] as u64) << 32u64) | ((b[5] as u64) << 40u64) | ((b[6] as u64) << 48u64) | ((
    b[7] as u64) << 56u64)
}

proof fn lemma_u32_round_trip(n: u32)
    ensures
        u32_of(u32_bytes(n)[0], u32_bytes(n)[1], u32_bytes(n)[2], u32_bytes(n)[3]) == n,
{
    let b0 = (n & 0xff) as u8;
    let b1 = ((n >> 8u32) & 0xff) as u8;
    let b2 = ((n >> 16u32) & 0xff) as u8;
    let b3 = ((n >> 24u32) & 0xff) as u8;
    assert((b0 as u32) | ((b1 as u32) << 8u32) | ((b2 as u32) << 16u32) | ((b3 as u32) << 24u32) == n)
        by (bit_vector)
        requires
            b0 == (n & 0xff) as u8,
            b1 == ((n >> 8u32) & 0xff) as u8,
            b2 == ((n >> 16u32) & 0xff) as u8,
            b3 == ((n >> 24u32) & 0xff) as u8,
    ;
}

proof fn lemma_u64_round_trip(n: u64)
    ensures
        u64_of(u64_bytes(n)) == n,
{
    let b = u64_bytes(n);
    let b0 = b[0];
    let b1 = b[1];
    let b2 = b[2];
    let b3 = b[3];
    let b4 = b[4];
    let b5 = b[5];
    let b6 = b[6];
    let b7 = b[7];
    assert((b0 as u64) | ((b1 as u64) << 8u64) | ((b2 as u64) << 16u64) | ((b3 as u64) << 24u64)
        | ((b4 as u64) << 32u64) | ((b5 as u64) << 40u64) | ((b6 as u64) << 48u64) | ((
    b7 as u64) << 56u64) == n) by (bit_vector)
        requires
            b0 == (n & 0xff) as u8,
            b1 == ((n >> 8u64) & 0xff) as u8,
            b2 == ((n >> 16u64) & 0xff) as u8,
            b3 == ((n >> 24u64) & 0xff) as u8,
            b4 == ((n >> 32u64) & 0xff) as u8,
            b5 == ((n >> 40u64) & 0xff) as u8,
            b6 == ((n >> 48u64) & 0xff) as u8,
            b7 == ((n >> 56u64) & 0xff) as u8,
    ;
}

/// One framed record: LSN, CRC-32 of the payload and payload length, little-endian,
/// then the payload.
pub open spec fn frame(lsn: u64, payload: Seq<u8>) -> Seq<u8> {
    u64_bytes(lsn) + u32_bytes(crc32(payload)) + u32_bytes(payload.len() as u32) + payload
}

/// The frames of `records`, one after another.
pub open spec fn frames(records: Seq<(u64, Seq<u8>)>) -> Seq<u8>
    decreases records.len(),
{
    if records.len() == 0 {
        Seq::empty()
    } else {
        frames(records.drop_last()) + frame(records.last().0, records.last().1)
    }
}

/// The records that recovery reads from the front of `b`: it stops at a short
/// header, a short payload or a checksum that does not match.
pub open spec fn decode(b: Seq<u8>) -> Seq<(u64, Seq<u8>)>
    decreases b.len(),
{
    if b.len() < 16 {
        Seq::empty()
    } else {
        let lsn = u64_of(b.subrange(0, 8));
        let crc = u32_of(b[8], b[9], b[10], b[11]);
        let len = u32_of(b[12], b[13], b[14], b[15]) as int;
        if b.len() - 16 < len {
            Seq::empty()
        } else {
            let payload = b.subrange(16, 16 + len);
            if crc32(payload) != crc {
                Seq::empty()
            } else {
                seq![(lsn, payload)] + decode(b.subrange(16 + len, b.len() as int))
            }
        }
    }
}

fn push_u32(out: &mut Vec<u8>, n: u32)
    ensures
        final(out)@ == old(out)@ + u32_bytes(n),
{
    out.push((n & 0xff) as u8);
    out.push(((n >> 8u32) & 0xff) as u8);
    out.push(((n >> 16u32) & 0xff) as u8);
    out.push(((n >> 24u32) & 0xff) as u8);
    assert(final(out)@ =~= old(out)@ + u32_bytes(n));
}

fn push_u64(out: &mut Vec<u8>, n: u64)
    ensures
        final(out)@ == old(out)@ + u64_bytes(n),
{
    out.push((n & 0xff) as u8);
    out.push(((n >> 8u64) & 0xff) as u8);
    out.push(((n >> 16u64) & 0xff) as u8);
    out.push(((n >> 24u64) & 0xff) as u8);
    out.push(((n >> 32u64) & 0xff) as u8);
    out.push(((n >> 40u64) & 0xff) as u8);
    out.push(((n >> 48u64) & 0xff) as u8);
    out.push(((n >> 56u64) & 0xff) as u8);
    assert(final(out)@ =~= old(out)@ + u64_bytes(n));
}

/// Appends the frame of one record.
pub fn encode_record(out: &mut Vec<u8>, lsn: u64, payload: &Vec<u8>)
    requires
        payload@.len() <= u32::MAX,
    ensures
        final(out)@ == old(out)@ + frame(lsn, payload@),
{
    let crc = crc32_of(payload.as_slice());
    push_u64(out, lsn);
    push_u32(out, crc);
    push_u32(out, payload.len() as u32);
    let mut i: usize = 0;
    let ghost o = out@;
    while i < payload.len()
        invariant
            0 <= i <= payload@.len(),
            out@ == o + payload@.subrange(0, i as int),
        decreases payload@.len() - i,
    {
        out.push(payload[i]);
        proof {
            assert(payload@.subrange(0, i as int + 1) =~= payload@.subrange(0, i as int).push(payload@[i as int]));
        }
        i = i + 1;
    }
    proof {
        assert(payload@.subrange(0, payload@.len() as int) =~= payload@);
        assert(out@ =~= old(out)@ + frame(lsn, payload@));
    }
}

pub open spec fn record_views(rs: Seq<(u64, Vec<u8>)>) -> Seq<(u64, Seq<u8>)> {
    Seq::new(rs.len(), |i: int| (rs[i].0, rs[i].1@))
}

/// One block holding the frames of a batch, and the LSN of its last record
/// (0 for an empty batch).
pub fn encode_batch(records: &Vec<(u64, Vec<u8>)>) -> (r: (Vec<u8>, u64))
    requires
        forall|i: int| 0 <= i < records@.len() ==> (#[trigger] records@[i]).1@.len() <= u32::MAX,
    ensures
        r.0@ == frames(record_views(records@)),
        r.1 == if records@.len() == 0 { 0 } else { records@.last().0 },
{
    let mut out: Vec<u8> = Vec::new();
    let mut max_lsn: u64 = 0;
    let ghost rv = record_views(records@);
    let mut i: usize = 0;
    while i < records.len()
        invariant
            rv == record_views(records@),
            forall|j: int| 0 <= j < records@.len() ==> (#[trigger] records@[j]).1@.len() <= u32::MAX,
            0 <= i <= records@.len(),
            out@ == frames(rv.subrange(0, i as int)),
            max_lsn == if i == 0 { 0 } else { records@[i - 1].0 },
        decreases records@.len() - i,
    {
        encode_record(&mut out, records[i].0, &records[i].1);
        max_lsn = records[i].0;
        proof {
            assert(rv.subrange(0, i as int + 1).drop_last() =~= rv.subrange(0, i as int));
        }
        i = i + 1;
    }
    proof {
        assert(rv.subrange(0, records@.len() as int) =~= rv);
    }
    (out, max_lsn)
}

/// Reads the records at the front of a log, as recovery does: it stops at the
/// first torn or corrupted record, so only whole, checked records come back.
pub fn decode_log(bytes: &Vec<u8>) -> (r: Vec<(u64, Vec<u8>)>)
    ensures
        record_views(r@) == decode(bytes@),
{
    let n = bytes.len();
    let mut out: Vec<(u64, Vec<u8>)> = Vec::new();
    let mut pos: usize = 0;
    proof {
        assert(bytes@.subrange(0, n as int) =~= bytes@);
        assert(record_views(out@) + decode(bytes@) =~= decode(bytes@));
    }
    loop
        invariant
            n == bytes@.len(),
            0 <= pos <= n,
            decode(bytes@) == record_views(out@) + decode(bytes@.subrange(pos as int, n as int)),
        ensures
            decode(bytes@) == record_views(out@),
        decreases n - pos,
    {
        let ghost rest = bytes@.subrange(pos as int, n as int);
        if n - pos < 16 {
            proof {
                assert(record_views(out@) + decode(rest) =~= record_views(out@));
            }
            break;
        }
        let b = bytes;
        let lsn: u64 = (b[pos] as u64) | ((b[pos + 1] as u64) << 8u64) | ((b[pos + 2] as u64) << 16u64)
            | ((b[pos + 3] as u64) << 24u64) | ((b[pos + 4] as u64) << 32u64) | ((b[pos + 5] as u64)
            << 40u64) | ((b[pos + 6] as u64) << 48u64) | ((b[pos + 7] as u64) << 56u64);
        let crc: u32 = (b[pos + 8] as u32) | ((b[pos + 9] as u32) << 8u32) | ((b[pos + 10] as u32)
            << 16u32) | ((b[pos + 11] as u32) << 24u32);
        let len: u32 = (b[pos + 12] as u32) | ((b[pos + 13] as u32) << 8u32) | ((b[pos + 14] as u32)
            << 16u32) | ((b[pos + 15] as u32) << 24u32);
        proof {
            assert(rest.subrange(0, 8) =~= bytes@.subrange(pos as int, pos as int + 8));
            assert(lsn == u64_of(rest.subrange(0, 8)));
            assert(crc == u32_of(rest[8], rest[9], rest[10], rest[11]));
            assert(len == u32_of(rest[12], rest[13], rest[14], rest[15]));
        }
        if ((n - pos - 16) as u64) < (len as u64) {
            proof {
                assert(record_views(out@) + decode(rest) =~= record_views(out@));
            }
            break;
        }
        let start = pos + 16;
        let end = start + len as usize;
        let mut payload: Vec<u8> = Vec::new();
        let mut k: usize = start;
        while k < end
            invariant
                n == bytes@.len(),
                start <= k <= end <= n,
                payload@ == bytes@.subrange(start as int, k as int),
            decreases end - k,
        {
            payload.push(bytes[k]);
            proof {
                assert(bytes@.subrange(start as int, k as int + 1) =~= bytes@.subrange(start as int, k as int).push(bytes@[k as int]));
            }
            k = k + 1;
        }
        proof {
            assert(rest.subrange(16, 16 + len as int) =~= payload@);
            assert(rest.subrange(16 + len as int, rest.len() as int) =~= bytes@.subrange(end as int, n as int));
        }
        if crc32_of(payload.as_slice()) != crc {
            proof {
                assert(record_views(out@) + decode(rest) =~= record_views(out@));
            }
            break;
        }
        let ghost prev = record_views(out@);
        out.push((lsn, payload));
        proof {
            assert(record_views(out@) =~= prev.push((lsn, bytes@.subrange(start as int, end as int))));
        }
        proof {
            assert(record_views(out@) + decode(bytes@.subrange(end as int, n as int)) =~= prev + decode(rest));
        }
        pos = end;
    }
    out
}

proof fn lemma_frames_front(rs: Seq<(u64, Seq<u8>)>)
    requires
        rs.len() > 0,
    ensures
        frames(rs) == frame(rs[0].0, rs[0].1) + frames(rs.drop_first()),
    decreases rs.len(),
{
    if rs.len() == 1 {
        assert(frames(rs.drop_last()) =~= Seq::<u8>::empty());
        assert(frames(rs.drop_first()) =~= Seq::<u8>::empty());
        assert(frames(rs) =~= frame(rs[0].0, rs[0].1) + frames(rs.drop_first()));
    } else {
        let dl = rs.drop_last();
        lemma_frames_front(dl);
        assert(rs.drop_first().drop_last() =~= dl.drop_first());
        assert(rs.drop_first().last() == rs.last());
        assert(frames(rs) =~= frame(rs[0].0, rs[0].1) + frames(rs.drop_first()));
    }
}

proof fn lemma_decode_frame(lsn: u64, payload: Seq<u8>, tail: Seq<u8>)
    requires
        payload.len() <= u32::MAX,
    ensures
        decode(frame(lsn, payload) + tail) == seq![(lsn, payload)] + decode(tail),
{
    let b = frame(lsn, payload) + tail;
    let crc = crc32(payload);
    let len = payload.len() as u32;
    lemma_u64_round_trip(lsn);
    lemma_u32_round_trip(crc);
    lemma_u32_round_trip(len);
    assert(b.subrange(0, 8) =~= u64_bytes(lsn));
    assert(b[8] == u32_bytes(crc)[0] && b[9] == u32_bytes(crc)[1] && b[10] == u32_bytes(crc)[2]
        && b[11] == u32_bytes(crc)[3]);
    assert(b[12] == u32_bytes(len)[0] && b[13] == u32_bytes(len)[1] && b[14] == u32_bytes(len)[2]
        && b[15] == u32_bytes(len)[3]);
    assert(b.subrange(16, 16 + payload.len() as int) =~= payload);
    assert(b.subrange(16 + payload.len() as int, b.len() as int) =~= tail);
}

/// Recovery reads back every record that was framed, in order, whatever follows
/// them in the log: a torn or corrupted tail never takes away a record before it,
/// and the records before it are the ones that were written.
pub proof fn lemma_recover_prefix(records: Seq<(u64, Seq<u8>)>, tail: Seq<u8>)
    requires
        forall|i: int| 0 <= i < records.len() ==> (#[trigger] records[i]).1.len() <= u32::MAX,
    ensures
        decode(frames(records) + tail) == records + decode(tail),
    decreases records.len(),
{
    if records.len() == 0 {
        assert(frames(records) + tail =~= tail);
        assert(records + decode(tail) =~= decode(tail));
    } else {
        lemma_frames_front(records);
        let rest = records.drop_first();
        lemma_recover_prefix(rest, tail);
        assert(frames(records) + tail =~= frame(records[0].0, records[0].1) + (frames(rest) + tail));
        lemma_decode_frame(records[0].0, records[0].1, frames(rest) + tail);
        assert(records =~= seq![records[0]] + rest);
    }
}

/// A whole log of framed records is read back exactly.
pub proof fn lemma_recover_all(records: Seq<(u64, Seq<u8>)>)
    requires
        forall|i: int| 0 <= i < records.len() ==> (#[trigger] records[i]).1.len() <= u32::MAX,
    ensures
        decode(frames(records)) == records,
{
    lemma_recover_prefix(records, Seq::empty());
    assert(frames(records) + Seq::<u8>::empty() =~= frames(records));
    assert(decode(Seq::<u8>::empty()) =~= Seq::<(u64, Seq<u8>)>::empty());
    assert(records + Seq::<(u64, Seq<u8>)>::empty() =~= records);
}

/// The tree after a logged change; a write that cannot be applied leaves it as it was.
pub open spec fn op_effect(root: Json, op_type: WalOpType, path: Seq<char>, value: Option<Json>) -> Json {
    match op_type {
        WalOpType::Put => match value {
            Some(v) => match set_path(root, path, v) {
                Ok(j) => j,
                Err(_) => root,
            },
            None => root,
        },
        WalOpType::Delete => delete_path(root, path),
    }
}

/// Applies one logged change to the tree, as recovery replays it.
pub fn apply_wal_op(root: &mut Value, op: WalOp)
    ensures
        final(root)@ == op_effect(old(root)@, op.op_type, op.path@, match op.value {
            Some(v) => Some(v@),
            None => None,
        }),
{
    match op.op_type {
        WalOpType::Put => {
            if let Some(v) = op.value {
                let _ = set_value(root, op.path.as_str(), v);
            }
        },
        WalOpType::Delete => delete_value(root, op.path.as_str()),
    }
}

/// The tree after a change of the older line-based log, named `set`, `delete` or
/// `push`; other names, failures and missing values leave it as it was.
pub open spec fn legacy_effect(root: Json, op: Seq<char>, path: Seq<char>, value: Option<Json>) -> Json {
    if op == "set"@ {
        op_effect(root, WalOpType::Put, path, value)
    } else if op == "delete"@ {
        delete_path(root, path)
    } else if op == "push"@ {
        match value {
            Some(v) => match push_path(root, path, v) {
                Ok(j) => j,
                Err(_) => root,
            },
            None => root,
        }
    } else {
        root
    }
}

/// Applies one change of the older line-based log.
pub fn apply_legacy_entry(root: &mut Value, op: &str, path: &str, value: Option<Value>)
    ensures
        final(root)@ == legacy_effect(old(root)@, op@, path@, match value {
            Some(v) => Some(v@),
            None => None,
        }),
{
    if same_text(op, "set") {
        if let Some(v) = value {
            let _ = set_value(root, path, v);
        }
    } else if same_text(op, "delete") {
        delete_value(root, path);
    } else if same_text(op, "push") {
        if let Some(v) = value {
            let _ = push_value(root, path, v);
        }
    }
}

/// What the log writer is told: a record, a request, or what its channel reported.
#[derive(Debug)]
pub enum WriterEvent {
    Write { lsn: u64, op: WalOp },
    Sync,
    Flush,
    Shutdown,
    Timeout,
    Disconnected,
}

/// What the log writer must do after an event.
#[derive(Debug)]
pub struct WriterAction {
    /// Records to write as one block, and whether to fsync after the write.
    pub flush: Option<(Vec<(u64, WalOp)>, bool)>,
    /// Whether to signal the caller of a sync.
    pub ack: bool,
    /// Whether the writer stops.
    pub exit: bool,
    /// Whether the flush deadline starts again from now.
    pub restart_timer: bool,
}

/// The decisions of the group-commit writer: records gather in a batch that is
/// written when it is full, on request, on the deadline, or at the end.
pub struct LogWriter {
    pub config: WalConfig,
    pub batch: Vec<(u64, WalOp)>,
}

impl LogWriter {
    pub fn new(config: WalConfig) -> (r: LogWriter)
        ensures
            r.config == config,
            r.batch@.len() == 0,
    {
        LogWriter { config, batch: Vec::new() }
    }

    fn take_batch(&mut self, fsync: bool) -> (r: Option<(Vec<(u64, WalOp)>, bool)>)
        ensures
            final(self).config == old(self).config,
            final(self).batch@.len() == 0,
            old(self).batch@.len() == 0 ==> r is None,
            old(self).batch@.len() > 0 ==> r is Some && (r->0).0@ == old(self).batch@ && (r->0).1 == fsync,
    {
        if self.batch.len() == 0 {
            return None;
        }
        let mut taken: Vec<(u64, WalOp)> = Vec::new();
        std::mem::swap(&mut taken, &mut self.batch);
        Some((taken, fsync))
    }

    /// Decides what to do on `ev`.
    pub fn handle(&mut self, ev: WriterEvent) -> (r: WriterAction)
        ensures
            final(self).config == old(self).config,
            match ev {
                WriterEvent::Write { lsn, op } => {
                    let b = old(self).batch@.push((lsn, op));
                    !r.ack && !r.exit && if b.len() >= old(self).config.batch_size {
                        r.flush is Some && (r.flush->0).0@ == b && (r.flush->0).1
                            == old(self).config.fsync && final(self).batch@.len() == 0 && r.restart_timer
                    } else {
                        r.flush is None && final(self).batch@ == b && !r.restart_timer
                    }
                },
                WriterEvent::Sync => final(self).batch@.len() == 0 && r.ack && !r.exit && (old(
                    self,
                ).batch@.len() == 0 ==> r.flush is None && !r.restart_timer) && (old(self).batch@.len()
                    > 0 ==> r.flush is Some && (r.flush->0).0@ == old(self).batch@ && (r.flush->0).1
                    && r.restart_timer),
                WriterEvent::Flush => final(self).batch@.len() == 0 && !r.ack && !r.exit && (old(
                    self,
                ).batch@.len() == 0 ==> r.flush is None && !r.restart_timer) && (old(self).batch@.len()
                    > 0 ==> r.flush is Some && (r.flush->0).0@ == old(self).batch@ && (r.flush->0).1
                    == old(self).config.fsync && r.restart_timer),
                WriterEvent::Timeout => final(self).batch@.len() == 0 && !r.ack && !r.exit
                    && r.restart_timer && (old(self).batch@.len() == 0 ==> r.flush is None) && (old(
                    self,
                ).batch@.len() > 0 ==> r.flush is Some && (r.flush->0).0@ == old(self).batch@
                    && (r.flush->0).1 == old(self).config.fsync),
                WriterEvent::Shutdown | WriterEvent::Disconnected => final(self).batch@.len() == 0
                    && !r.ack && r.exit && (old(self).batch@.len() == 0 ==> r.flush is None) && (old(
                    self,
                ).batch@.len() > 0 ==> r.flush is Some && (r.flush->0).0@ == old(self).batch@
                    && (r.flush->0).1),
            },
    {
        match ev {
            WriterEvent::Write { lsn, op } => {
                self.batch.push((lsn, op));
                if self.batch.len() >= self.config.batch_size {
                    let fsync = self.config.fsync;
                    let flush = self.take_batch(fsync);
                    WriterAction { flush, ack: false, exit: false, restart_timer: true }
                } else {
                    WriterAction { flush: None, ack: false, exit: false, restart_timer: false }
                }
            },
            WriterEvent::Sync => {
                let flush = self.take_batch(true);
                let restart = flush.is_some();
                WriterAction { flush, ack: true, exit: false, restart_timer: restart }
            },
            WriterEvent::Flush => {
                let fsync = self.config.fsync;
                let flush = self.take_batch(fsync);
                let restart = flush.is_some();
                WriterAction { flush, ack: false, exit: false, restart_timer: restart }
            },
            WriterEvent::Timeout => {
                let fsync = self.config.fsync;
                let flush = self.take_batch(fsync);
                WriterAction { flush, ack: false, exit: false, restart_timer: true }
            },
            WriterEvent::Shutdown | WriterEvent::Disconnected => {
                let flush = self.take_batch(true);
                WriterAction { flush, ack: false, exit: true, restart_timer: false }
            },
        }
    }
}

pub open spec fn opt_json(v: Option<Value>) -> Option<Json> {
    match v {
        Some(x) => Some(x@),
        None => None,
    }
}

/// Replaying parsed records onto `root` in order: it stops at the first record
/// whose payload did not parse, and gives the tree and the LSN of the last record
/// applied (`last` where none is).
pub open spec fn replay(root: Json, recs: Seq<(u64, Option<WalOp>)>, last: u64) -> (Json, u64)
    decreases recs.len(),
{
    if recs.len() == 0 {
        (root, last)
    } else {
        match recs[0].1 {
            None => (root, last),
            Some(op) => replay(
                op_effect(root, op.op_type, op.path@, opt_json(op.value)),
                recs.drop_first(),
                recs[0].0,
            ),
        }
    }
}

/// Recovery's replay: applies the records in order up to the first one whose
/// payload did not parse, and returns the LSN of the last one applied, 0 where
/// none was.
pub fn replay_records(root: &mut Value, recs: &Vec<(u64, Option<WalOp>)>) -> (r: u64)
    ensures
        (final(root)@, r) == replay(old(root)@, recs@, 0),
{
    let ghost target = replay(root@, recs@, 0);
    let mut last: u64 = 0;
    let mut i: usize = 0;
    proof {
        assert(recs@.subrange(0, recs@.len() as int) =~= recs@);
    }
    while i < recs.len()
        invariant
            0 <= i <= recs@.len(),
            target == replay(old(root)@, recs@, 0),
            target == replay(root@, recs@.subrange(i as int, recs@.len() as int), last),
        decreases recs@.len() - i,
    {
        let ghost rest = recs@.subrange(i as int, recs@.len() as int);
        proof {
            assert(rest[0] == recs@[i as int]);
            assert(rest.drop_first() =~= recs@.subrange(i as int + 1, recs@.len() as int));
        }
        match &recs[i].1 {
            None => {
                assert(rest[0].1 is None);
                assert(replay(root@, rest, last) == (root@, last));
                return last;
            },
            Some(op) => {
                let value = match &op.value {
                    Some(v) => Some(v.duplicate()),
                    None => None,
                };
                let copy = WalOp { timestamp: op.timestamp, op_type: op.op_type, path: op.path.clone(), value };
                apply_wal_op(root, copy);
                last = recs[i].0;
            },
        }
        i = i + 1;
    }
    proof {
        assert(recs@.subrange(i as int, recs@.len() as int) =~= Seq::<(u64, Option<WalOp>)>::empty());
    }
    last
}

} // verus!
