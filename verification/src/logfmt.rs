//! Log record framing and crash recovery.
//!
//! Every record carries a fixed header — kind (1 byte), page id (8), LSN
//! (8, signed), payload length (8), CRC32 of the payload (4) — followed by
//! the payload. On recovery, a record whose bytes are incomplete or whose
//! stored CRC does not match its payload is a torn write from an unclean
//! shutdown: it and everything after it are discarded, so recovery always
//! stops at the last verified consistent point.

use vstd::prelude::*;
use vstd::bytes::{
    lemma_auto_spec_u32_to_from_le_bytes, lemma_auto_spec_u64_to_from_le_bytes,
    spec_u32_from_le_bytes, spec_u32_to_le_bytes, spec_u64_from_le_bytes, spec_u64_to_le_bytes,
    u32_from_le_bytes, u32_to_le_bytes, u64_from_le_bytes, u64_to_le_bytes,
};
use vstd::slice::slice_subrange;
use crate::constants::MAX_MSG_HEADER_LEN;
use crate::util::copy_bytes;

verus! {

/// What the CRC32 checksum of a byte string is: a function of the bytes
/// alone, relied on through `crc32fast`.
pub uninterp spec fn crc32_of(bytes: Seq<u8>) -> u32;

/// Relies on `crc32fast::hash`: the CRC32 of a byte slice, depending on
/// the bytes alone.
pub assume_specification[ crc32fast::hash ](buf: &[u8]) -> (r: u32)
    ensures
        r == crc32_of(buf@),
;

/// One framed log record.
pub struct LogRecord {
    pub kind: u8,
    pub pid: u64,
    pub lsn: i64,
    pub payload: Vec<u8>,
}

/// The mathematical content of a log record.
pub struct RecordView {
    pub kind: u8,
    pub pid: u64,
    pub lsn: i64,
    pub payload: Seq<u8>,
}

impl View for LogRecord {
    type V = RecordView;

    open spec fn view(&self) -> RecordView {
        RecordView { kind: self.kind, pid: self.pid, lsn: self.lsn, payload: self.payload@ }
    }
}

/// The two's-complement 8-byte image of a signed LSN.
pub open spec fn spec_lsn_bits(x: i64) -> u64 {
    if x >= 0 {
        x as u64
    } else {
        ((x - i64::MIN) + 0x8000000000000000) as u64
    }
}

/// The signed LSN an 8-byte image stands for.
pub open spec fn spec_bits_lsn(b: u64) -> i64 {
    if b < 0x8000000000000000 {
        b as i64
    } else {
        ((b - 0x8000000000000000) + i64::MIN) as i64
    }
}

/// The two encodings invert each other.
pub proof fn lemma_lsn_bits_roundtrip(x: i64)
    ensures
        spec_bits_lsn(spec_lsn_bits(x)) == x,
{
}

fn lsn_bits(x: i64) -> (r: u64)
    ensures
        r == spec_lsn_bits(x),
{
    if x >= 0 {
        x as u64
    } else {
        ((x as i128 - i64::MIN as i128) as u64) + 0x8000000000000000u64
    }
}

fn bits_lsn(b: u64) -> (r: i64)
    ensures
        r == spec_bits_lsn(b),
{
    if b < 0x8000000000000000u64 {
        b as i64
    } else {
        ((b - 0x8000000000000000u64) as i128 + i64::MIN as i128) as i64
    }
}

/// The bytes one record is framed to: header, then payload.
pub open spec fn spec_encode_record(r: RecordView) -> Seq<u8>
    recommends
        r.payload.len() <= u64::MAX,
{
    seq![r.kind] + spec_u64_to_le_bytes(r.pid) + spec_u64_to_le_bytes(spec_lsn_bits(r.lsn))
        + spec_u64_to_le_bytes(r.payload.len() as u64) + spec_u32_to_le_bytes(crc32_of(r.payload))
        + r.payload
}

/// The bytes a run of records is framed to.
pub open spec fn spec_encode_records(rs: Seq<RecordView>) -> Seq<u8>
    decreases rs.len(),
{
    if rs.len() == 0 {
        Seq::empty()
    } else {
        spec_encode_record(rs[0]) + spec_encode_records(rs.drop_first())
    }
}

/// Decode one record from the front of `buf`: the record and the remaining
/// bytes, or nothing if the front of `buf` is not one complete, verified
/// record.
pub open spec fn spec_decode_record(buf: Seq<u8>) -> Option<(RecordView, Seq<u8>)> {
    if buf.len() < MAX_MSG_HEADER_LEN {
        Option::None
    } else {
        let kind = buf[0];
        let pid = spec_u64_from_le_bytes(buf.subrange(1, 9));
        let lsnb = spec_u64_from_le_bytes(buf.subrange(9, 17));
        let len = spec_u64_from_le_bytes(buf.subrange(17, 25));
        let crc = spec_u32_from_le_bytes(buf.subrange(25, 29));
        if len > buf.len() - 29 {
            Option::None
        } else {
            let payload = buf.subrange(29, 29 + len);
            if crc != crc32_of(payload) {
                Option::None
            } else {
                Option::Some(
                    (
                        RecordView { kind, pid, lsn: spec_bits_lsn(lsnb), payload },
                        buf.subrange(29 + len, buf.len() as int),
                    ),
                )
            }
        }
    }
}

/// Everything recovery accepts from a log image: records from the front,
/// up to but not including the first incomplete or corrupt one.
pub open spec fn spec_recover(buf: Seq<u8>) -> Seq<RecordView>
    decreases buf.len(),
{
    match spec_decode_record(buf) {
        Option::None => Seq::empty(),
        Option::Some((r, rest)) => {
            if rest.len() < buf.len() {
                seq![r] + spec_recover(rest)
            } else {
                seq![r]
            }
        },
    }
}

/// The logical state a run of recovered records stands for: the latest
/// payload each page id was written.
pub open spec fn spec_replay(rs: Seq<RecordView>) -> Map<u64, Seq<u8>>
    decreases rs.len(),
{
    if rs.len() == 0 {
        Map::empty()
    } else {
        spec_replay(rs.drop_last()).insert(rs.last().pid, rs.last().payload)
    }
}

/// Frame one record.
pub fn encode_record(r: &LogRecord) -> (out: Vec<u8>)
    ensures
        out@ == spec_encode_record(r@),
        out@.len() == MAX_MSG_HEADER_LEN + r.payload@.len(),
{
    proof {
        lemma_auto_spec_u64_to_from_le_bytes();
        lemma_auto_spec_u32_to_from_le_bytes();
    }
    let mut out: Vec<u8> = Vec::new();
    out.push(r.kind);
    let mut pid_bytes = u64_to_le_bytes(r.pid);
    out.append(&mut pid_bytes);
    let mut lsn_bytes = u64_to_le_bytes(lsn_bits(r.lsn));
    out.append(&mut lsn_bytes);
    let mut len_bytes = u64_to_le_bytes(r.payload.len() as u64);
    out.append(&mut len_bytes);
    let crc = crc32fast::hash(r.payload.as_slice());
    let mut crc_bytes = u32_to_le_bytes(crc);
    out.append(&mut crc_bytes);
    let mut payload = copy_bytes(&r.payload);
    out.append(&mut payload);
    proof {
        assert(out@ =~= spec_encode_record(r@));
    }
    out
}

/// Frame a run of records, in order.
#[verifier::loop_isolation(false)]
pub fn encode_records(rs: &Vec<LogRecord>) -> (out: Vec<u8>)
    ensures
        out@ == spec_encode_records(rs@.map_values(|r: LogRecord| r@)),
{
    let n = rs.len();
    let mut out: Vec<u8> = Vec::new();
    let mut i: usize = 0;
    proof {
        assert(rs@.subrange(0, 0) =~= Seq::<LogRecord>::empty());
        assert(out@ =~= spec_encode_records(
            rs@.subrange(0, 0).map_values(|r: LogRecord| r@),
        ));
    }
    loop
        invariant
            i <= n,
            out@ == spec_encode_records(rs@.subrange(0, i as int).map_values(|r: LogRecord| r@)),
        decreases n - i,
    {
        if i == n {
            break;
        }
        let mut piece = encode_record(&rs[i]);
        let ghost pre = out@;
        out.append(&mut piece);
        proof {
            let views = rs@.subrange(0, i + 1).map_values(|r: LogRecord| r@);
            lemma_encode_records_snoc(rs@.subrange(0, i as int).map_values(|r: LogRecord| r@),
                rs@[i as int]@);
            assert(rs@.subrange(0, i + 1).map_values(|r: LogRecord| r@) =~= rs@.subrange(
                0,
                i as int,
            ).map_values(|r: LogRecord| r@).push(rs@[i as int]@));
        }
        i += 1;
    }
    proof {
        assert(rs@.subrange(0, n as int) =~= rs@);
    }
    out
}

/// Framing one more record appends its bytes.
pub proof fn lemma_encode_records_snoc(rs: Seq<RecordView>, r: RecordView)
    ensures
        spec_encode_records(rs.push(r)) == spec_encode_records(rs) + spec_encode_record(r),
    decreases rs.len(),
{
    let l = rs.push(r);
    if rs.len() == 0 {
        assert(l[0] == r);
        assert(l.drop_first() =~= Seq::<RecordView>::empty());
        assert(spec_encode_records(l.drop_first()) == Seq::<u8>::empty());
        assert(spec_encode_records(l) == spec_encode_record(r) + Seq::<u8>::empty());
        assert(spec_encode_records(rs) == Seq::<u8>::empty());
        assert(spec_encode_record(r) + Seq::<u8>::empty() =~= Seq::<u8>::empty()
            + spec_encode_record(r));
    } else {
        assert(l[0] == rs[0]);
        assert(l.drop_first() =~= rs.drop_first().push(r));
        lemma_encode_records_snoc(rs.drop_first(), r);
        assert(spec_encode_records(l) == spec_encode_record(rs[0]) + (spec_encode_records(
            rs.drop_first(),
        ) + spec_encode_record(r)));
        assert(spec_encode_record(rs[0]) + (spec_encode_records(rs.drop_first())
            + spec_encode_record(r)) =~= (spec_encode_record(rs[0]) + spec_encode_records(
            rs.drop_first(),
        )) + spec_encode_record(r));
    }
}

/// Decoding the framing of one record yields that record and the bytes
/// after it, whatever they are.
pub proof fn lemma_decode_encode(r: RecordView, rest: Seq<u8>)
    requires
        r.payload.len() <= u64::MAX,
    ensures
        spec_decode_record(spec_encode_record(r) + rest) == Option::Some(
            (r, rest),
        ),
        spec_encode_record(r).len() == MAX_MSG_HEADER_LEN + r.payload.len(),
{
    lemma_auto_spec_u64_to_from_le_bytes();
    lemma_auto_spec_u32_to_from_le_bytes();
    lemma_lsn_bits_roundtrip(r.lsn);
    let e = spec_encode_record(r) + rest;
    let plen = r.payload.len() as int;
    assert(spec_encode_record(r).len() == 29 + plen);
    assert(e.subrange(1, 9) =~= spec_u64_to_le_bytes(r.pid));
    assert(e.subrange(9, 17) =~= spec_u64_to_le_bytes(spec_lsn_bits(r.lsn)));
    assert(e.subrange(17, 25) =~= spec_u64_to_le_bytes(r.payload.len() as u64));
    assert(e.subrange(25, 29) =~= spec_u32_to_le_bytes(crc32_of(r.payload)));
    assert(e.subrange(29, 29 + plen) =~= r.payload);
    assert(e.subrange(29 + plen, e.len() as int) =~= rest);
    assert(e[0] == r.kind);
}

/// No strict prefix of a record's framing decodes: the missing bytes are
/// noticed, either in the header or against the declared payload length.
pub proof fn lemma_decode_torn(r: RecordView, k: int)
    requires
        r.payload.len() <= u64::MAX,
        0 <= k < spec_encode_record(r).len(),
    ensures
        spec_decode_record(spec_encode_record(r).subrange(0, k)) is None,
{
    lemma_auto_spec_u64_to_from_le_bytes();
    lemma_auto_spec_u32_to_from_le_bytes();
    let e = spec_encode_record(r);
    let p = e.subrange(0, k);
    let plen = r.payload.len() as int;
    assert(e.len() == 29 + plen);
    if k < 29 {
        assert(p.len() < MAX_MSG_HEADER_LEN);
    } else {
        assert(p.subrange(17, 25) =~= e.subrange(17, 25));
        assert(e.subrange(17, 25) =~= spec_u64_to_le_bytes(r.payload.len() as u64));
        assert(spec_u64_from_le_bytes(p.subrange(17, 25)) == r.payload.len() as u64);
        assert(p.len() - 29 < plen);
    }
}

/// Recovery of a log that begins with one intact record accepts it and
/// goes on behind it.
pub proof fn lemma_recover_extends(r: RecordView, tail: Seq<u8>)
    requires
        r.payload.len() <= u64::MAX,
    ensures
        spec_recover(spec_encode_record(r) + tail) == seq![r] + spec_recover(tail),
{
    lemma_decode_encode(r, tail);
}

/// Recovery of exactly the framing of a run of records yields that run.
pub proof fn lemma_recover_complete(rs: Seq<RecordView>)
    requires
        forall|i: int| 0 <= i < rs.len() ==> (#[trigger] rs[i]).payload.len() <= u64::MAX,
    ensures
        spec_recover(spec_encode_records(rs)) == rs,
    decreases rs.len(),
{
    if rs.len() == 0 {
        assert(spec_encode_records(rs).len() == 0);
        assert(spec_recover(spec_encode_records(rs)) =~= rs);
    } else {
        lemma_recover_complete(rs.drop_first());
        lemma_recover_extends(rs[0], spec_encode_records(rs.drop_first()));
        assert(spec_recover(spec_encode_records(rs)) =~= rs);
    }
}

/// Recovery determinism under a crash: a log truncated inside its last
/// record recovers to exactly the records before it — the same sequence,
/// and so the same logical state, as if the torn record had never been
/// written.
pub proof fn lemma_recovery_ignores_torn_tail(rs: Seq<RecordView>, extra: RecordView, k: int)
    requires
        forall|i: int| 0 <= i < rs.len() ==> (#[trigger] rs[i]).payload.len() <= u64::MAX,
        extra.payload.len() <= u64::MAX,
        0 <= k < spec_encode_record(extra).len(),
    ensures
        spec_recover(spec_encode_records(rs) + spec_encode_record(extra).subrange(0, k)) == rs,
        spec_replay(
            spec_recover(spec_encode_records(rs) + spec_encode_record(extra).subrange(0, k)),
        ) == spec_replay(spec_recover(spec_encode_records(rs))),
    decreases rs.len(),
{
    let torn = spec_encode_record(extra).subrange(0, k);
    if rs.len() == 0 {
        lemma_decode_torn(extra, k);
        assert(spec_encode_records(rs) + torn =~= torn);
        assert(spec_recover(torn) =~= rs);
        lemma_recover_complete(rs);
    } else {
        lemma_recovery_ignores_torn_tail(rs.drop_first(), extra, k);
        assert((spec_encode_record(rs[0]) + spec_encode_records(rs.drop_first())) + torn
            =~= spec_encode_record(rs[0]) + (spec_encode_records(rs.drop_first()) + torn));
        lemma_recover_extends(rs[0], spec_encode_records(rs.drop_first()) + torn);
        assert(seq![rs[0]] + rs.drop_first() =~= rs);
        lemma_recover_complete(rs);
    }
}

/// Recover every verified record from the front of a log image, stopping
/// at the first incomplete or corrupt one.
#[verifier::loop_isolation(false)]
#[verifier::rlimit(60)]
pub fn recover(buf: &Vec<u8>) -> (out: Vec<LogRecord>)
    ensures
        out@.map_values(|r: LogRecord| r@) == spec_recover(buf@),
{
    let mut out: Vec<LogRecord> = Vec::new();
    let mut off: usize = 0;
    let n = buf.len();
    proof {
        lemma_auto_spec_u64_to_from_le_bytes();
        lemma_auto_spec_u32_to_from_le_bytes();
        assert(buf@.skip(0) =~= buf@);
        assert(out@.map_values(|r: LogRecord| r@) + spec_recover(buf@.skip(0)) =~= spec_recover(
            buf@,
        ));
    }
    loop
        invariant
            off <= n,
            spec_recover(buf@) == out@.map_values(|r: LogRecord| r@) + spec_recover(
                buf@.skip(off as int),
            ),
        decreases n - off,
    {
        let ghost suffix = buf@.skip(off as int);
        if n - off < MAX_MSG_HEADER_LEN {
            proof {
                assert(spec_recover(suffix) =~= Seq::<RecordView>::empty());
                assert(out@.map_values(|r: LogRecord| r@) + spec_recover(suffix)
                    =~= out@.map_values(|r: LogRecord| r@));
            }
            return out;
        }
        let kind = buf[off];
        let pid = u64_from_le_bytes(slice_subrange(buf.as_slice(), off + 1, off + 9));
        let lsnb = u64_from_le_bytes(slice_subrange(buf.as_slice(), off + 9, off + 17));
        let len = u64_from_le_bytes(slice_subrange(buf.as_slice(), off + 17, off + 25));
        let crc = u32_from_le_bytes(slice_subrange(buf.as_slice(), off + 25, off + 29));
        proof {
            assert(buf@.subrange(off + 1, off + 9) =~= suffix.subrange(1, 9));
            assert(buf@.subrange(off + 9, off + 17) =~= suffix.subrange(9, 17));
            assert(buf@.subrange(off + 17, off + 25) =~= suffix.subrange(17, 25));
            assert(buf@.subrange(off + 25, off + 29) =~= suffix.subrange(25, 29));
            assert(buf@[off as int] == suffix[0]);
        }
        if len > (n - off - MAX_MSG_HEADER_LEN) as u64 {
            proof {
                assert(spec_recover(suffix) =~= Seq::<RecordView>::empty());
                assert(out@.map_values(|r: LogRecord| r@) + spec_recover(suffix)
                    =~= out@.map_values(|r: LogRecord| r@));
            }
            return out;
        }
        let len_us = len as usize;
        let payload = vstd::slice::slice_to_vec(
            slice_subrange(buf.as_slice(), off + 29, off + 29 + len_us),
        );
        proof {
            assert(payload@ =~= suffix.subrange(29, 29 + len as int));
        }
        let stored_ok = crc32fast::hash(payload.as_slice()) == crc;
        if !stored_ok {
            proof {
                assert(spec_recover(suffix) =~= Seq::<RecordView>::empty());
                assert(out@.map_values(|r: LogRecord| r@) + spec_recover(suffix)
                    =~= out@.map_values(|r: LogRecord| r@));
            }
            return out;
        }
        let rec = LogRecord { kind, pid, lsn: bits_lsn(lsnb), payload };
        let ghost pre = out@;
        out.push(rec);
        proof {
            let ghost decoded = spec_decode_record(suffix);
            assert(decoded is Some);
            let (rv, rest) = decoded->Some_0;
            assert(rv == out@.last()@);
            assert(rest =~= buf@.skip(off + 29 + len as int));
            assert(out@.map_values(|r: LogRecord| r@) =~= pre.map_values(|r: LogRecord| r@).push(
                out@.last()@,
            ));
            assert(out@.map_values(|r: LogRecord| r@) + spec_recover(
                buf@.skip(off + 29 + len as int),
            ) =~= pre.map_values(|r: LogRecord| r@) + spec_recover(suffix));
        }
        off = off + MAX_MSG_HEADER_LEN + len_us;
    }
}

} // verus!
