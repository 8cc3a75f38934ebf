//! The metadata-log decoder: an append-only file of length-framed record
//! batches, each holding records whose values are a tagged union over topic
//! and partition records. Unknown record kinds are carried through as
//! opaque, not rejected. The log uses the primitive codec but is an
//! independent binary format, not the client wire format.

use vstd::prelude::*;
use vstd::slice::slice_subrange;

use crate::errors::KafkaError;
use crate::primitive_types::{spec_cstring_decode, CompactArray, CompactString};
use crate::traits::{views_of, Codec, Decodable};
use crate::wire::{
    read_be32, read_be64, spec_be32_val, spec_be64_val, spec_varint_decode,
};

verus! {

//
// Record values
//

/// The mathematical content of a topic record: a name bound to a 16-byte
/// topic identifier.
pub struct TopicRecordView {
    pub topic_name: Seq<char>,
    pub topic_id: Seq<u8>,
}

/// A topic record from the log: the name-to-identifier binding.
pub struct TopicRecord {
    pub topic_name: CompactString,
    pub topic_id: Vec<u8>,
}

impl View for TopicRecord {
    type V = TopicRecordView;

    open spec fn view(&self) -> TopicRecordView {
        TopicRecordView { topic_name: self.topic_name@, topic_id: self.topic_id@ }
    }
}

/// The mathematical content of a partition record.
pub struct PartitionRecordView {
    pub partition_id: i32,
    pub topic_id: Seq<u8>,
    pub replica_array: Seq<i32>,
    pub isr_array: Seq<i32>,
    pub leader: i32,
    pub leader_epoch: i32,
}

/// A partition record from the log: one partition of a topic, keyed by the
/// topic's identifier, with its replica and in-sync-replica node lists.
pub struct PartitionRecord {
    pub partition_id: i32,
    pub topic_id: Vec<u8>,
    pub replica_array: CompactArray<i32>,
    pub isr_array: CompactArray<i32>,
    pub leader: i32,
    pub leader_epoch: i32,
}

impl View for PartitionRecord {
    type V = PartitionRecordView;

    open spec fn view(&self) -> PartitionRecordView {
        PartitionRecordView {
            partition_id: self.partition_id,
            topic_id: self.topic_id@,
            replica_array: self.replica_array@,
            isr_array: self.isr_array@,
            leader: self.leader,
            leader_epoch: self.leader_epoch,
        }
    }
}

/// The mathematical content of a record value.
pub enum RecordValueView {
    TopicRecord(TopicRecordView),
    PartitionRecord(PartitionRecordView),
    Unknown,
}

/// A record's value: a tagged union over the kinds the resolver reads.
/// Kinds this implementation does not know are kept as `Unknown` and
/// ignored by the resolver, not rejected by the decoder.
pub enum RecordValue {
    TopicRecord(TopicRecord),
    PartitionRecord(PartitionRecord),
    Unknown,
}

impl View for RecordValue {
    type V = RecordValueView;

    open spec fn view(&self) -> RecordValueView {
        match self {
            RecordValue::TopicRecord(t) => RecordValueView::TopicRecord(t@),
            RecordValue::PartitionRecord(p) => RecordValueView::PartitionRecord(p@),
            RecordValue::Unknown => RecordValueView::Unknown,
        }
    }
}

/// The kind byte naming a topic record.
pub open spec fn spec_topic_record_kind() -> u8 {
    2u8
}

/// The kind byte naming a partition record.
pub open spec fn spec_partition_record_kind() -> u8 {
    3u8
}

/// Decodes a record value from its payload: a kind byte, then the kind's
/// fields. An unknown kind is kept opaque; a known kind whose fields do not
/// fit the payload is an error. Trailing payload bytes after the fields are
/// reserved space and ignored.
#[verifier::opaque]
pub open spec fn spec_record_value_decode(p: Seq<u8>) -> Option<RecordValueView> {
    if p.len() < 1 {
        None
    } else if p[0] == spec_topic_record_kind() {
        match spec_cstring_decode(p.skip(1)) {
            None => None,
            Some((name, n)) => if p.skip(1).len() < n + 16 {
                None
            } else {
                Some(
                    RecordValueView::TopicRecord(
                        TopicRecordView {
                            topic_name: name,
                            topic_id: p.skip(1).subrange(n, n + 16),
                        },
                    ),
                )
            },
        }
    } else if p[0] == spec_partition_record_kind() {
        let q = p.skip(1);
        if q.len() < 20 {
            None
        } else {
            match CompactArray::<i32>::spec_decode(q.skip(20)) {
                None => None,
                Some((reps, n1)) => match CompactArray::<i32>::spec_decode(q.skip(20 + n1)) {
                    None => None,
                    Some((isr, n2)) => if q.len() < 20 + n1 + n2 + 8 {
                        None
                    } else {
                        Some(
                            RecordValueView::PartitionRecord(
                                PartitionRecordView {
                                    partition_id: spec_be32_val(q.subrange(0, 4)) as i32,
                                    topic_id: q.subrange(4, 20),
                                    replica_array: reps,
                                    isr_array: isr,
                                    leader: spec_be32_val(
                                        q.subrange(20 + n1 + n2, 20 + n1 + n2 + 4),
                                    ) as i32,
                                    leader_epoch: spec_be32_val(
                                        q.subrange(20 + n1 + n2 + 4, 20 + n1 + n2 + 8),
                                    ) as i32,
                                },
                            ),
                        )
                    },
                },
            }
        }
    } else {
        Some(RecordValueView::Unknown)
    }
}

/// Decodes a record value from a payload slice.
fn decode_record_value(p: &[u8]) -> (r: Result<RecordValue, KafkaError>)
    ensures
        match spec_record_value_decode(p@) {
            Some(v) => r matches Ok(q) && q@ == v,
            None => r == Err::<RecordValue, KafkaError>(KafkaError::DecodeError),
        },
{
    proof {
        reveal(spec_record_value_decode);
    }
    if p.len() < 1 {
        return Err(KafkaError::DecodeError);
    }
    let kind = p[0];
    if kind == 2 {
        let body = slice_subrange(p, 1, p.len());
        proof {
            assert(body@ =~= p@.skip(1));
        }
        let (topic_name, n) = match CompactString::decode(body) {
            Ok(v) => v,
            Err(_) => {
                return Err(KafkaError::DecodeError);
            },
        };
        if body.len() - n < 16 {
            return Err(KafkaError::DecodeError);
        }
        let id_slice = slice_subrange(body, n, n + 16);
        let topic_id = copy_bytes(id_slice);
        proof {
            assert(topic_id@ =~= p@.skip(1).subrange(n as int, n + 16));
        }
        Ok(RecordValue::TopicRecord(TopicRecord { topic_name, topic_id }))
    } else if kind == 3 {
        let q = slice_subrange(p, 1, p.len());
        proof {
            assert(q@ =~= p@.skip(1));
        }
        if q.len() < 20 {
            return Err(KafkaError::DecodeError);
        }
        let partition_id = read_be32(q, 0) as i32;
        let id_slice = slice_subrange(q, 4, 20);
        let topic_id = copy_bytes(id_slice);
        let reps_buf = slice_subrange(q, 20, q.len());
        proof {
            assert(reps_buf@ =~= q@.skip(20));
            assert(q@.subrange(0, 4) =~= q@.subrange(0, 4));
        }
        let (replica_array, n1) = match CompactArray::<i32>::decode(reps_buf) {
            Ok(v) => v,
            Err(_) => {
                return Err(KafkaError::DecodeError);
            },
        };
        let isr_buf = slice_subrange(q, 20 + n1, q.len());
        proof {
            assert(isr_buf@ =~= q@.skip(20 + n1 as int));
        }
        let (isr_array, n2) = match CompactArray::<i32>::decode(isr_buf) {
            Ok(v) => v,
            Err(_) => {
                return Err(KafkaError::DecodeError);
            },
        };
        if q.len() - 20 - n1 - n2 < 8 {
            return Err(KafkaError::DecodeError);
        }
        let leader = read_be32(q, 20 + n1 + n2) as i32;
        let leader_epoch = read_be32(q, 20 + n1 + n2 + 4) as i32;
        Ok(
            RecordValue::PartitionRecord(
                PartitionRecord {
                    partition_id,
                    topic_id,
                    replica_array,
                    isr_array,
                    leader,
                    leader_epoch,
                },
            ),
        )
    } else {
        Ok(RecordValue::Unknown)
    }
}

/// Copies a byte slice into an owned vector.
pub fn copy_bytes(src: &[u8]) -> (r: Vec<u8>)
    ensures
        r@ == src@,
{
    let mut r: Vec<u8> = Vec::new();
    let mut i: usize = 0;
    while i < src.len()
        invariant
            0 <= i <= src@.len(),
            r@ == src@.take(i as int),
        decreases src@.len() - i,
    {
        r.push(src[i]);
        proof {
            assert(r@ =~= src@.take(i + 1));
        }
        i = i + 1;
    }
    proof {
        assert(src@.take(src@.len() as int) =~= src@);
    }
    r
}

//
// Records and batches
//

/// The mathematical content of one record.
pub struct RecordView {
    pub value: RecordValueView,
}

/// One record of a batch: a varint payload length, then the payload holding
/// the record value.
pub struct Record {
    pub value: RecordValue,
}

impl View for Record {
    type V = RecordView;

    open spec fn view(&self) -> RecordView {
        RecordView { value: self.value@ }
    }
}

/// Decodes one record: a varint length, which must be at least one and
/// covered by the buffer, then the value inside that payload.
#[verifier::opaque]
pub open spec fn spec_record_decode(s: Seq<u8>) -> Option<(RecordView, int)> {
    match spec_varint_decode(s) {
        None => None,
        Some((v, n)) => if v == 0 {
            None
        } else {
            let len = v as int;
            if s.len() < n + len {
                None
            } else {
                match spec_record_value_decode(s.subrange(n, n + len)) {
                    None => None,
                    Some(rv) => Some((RecordView { value: rv }, n + len)),
                }
            }
        },
    }
}

impl Record {
    pub fn decode(buf: &[u8]) -> (r: Result<(Record, usize), KafkaError>)
        ensures
            match spec_record_decode(buf@) {
                Some(p) => {
                    &&& r matches Ok(q)
                    &&& q.0@ == p.0
                    &&& q.1 as int == p.1
                    &&& 1 <= p.1 <= buf@.len()
                },
                None => r == Err::<(Record, usize), KafkaError>(KafkaError::DecodeError),
            },
    {
        proof {
            reveal(spec_record_decode);
            assert(buf@.skip(0) =~= buf@);
        }
        let (v, n) = match crate::wire::decode_var_int(buf, 0) {
            Some(p) => p,
            None => {
                return Err(KafkaError::DecodeError);
            },
        };
        if v == 0 {
            return Err(KafkaError::DecodeError);
        }
        let remaining: u64 = (buf.len() - n) as u64;
        if remaining < v as u64 {
            return Err(KafkaError::DecodeError);
        }
        let len = v as usize;
        let payload = slice_subrange(buf, n, n + len);
        proof {
            assert(payload@ =~= buf@.subrange(n as int, n + len));
        }
        match decode_record_value(payload) {
            Ok(value) => Ok((Record { value }, n + len)),
            Err(_) => Err(KafkaError::DecodeError),
        }
    }
}

/// The mathematical content of a record batch.
pub struct RecordBatchView {
    pub base_offset: u64,
    pub records: Seq<RecordView>,
}

/// One self-framed chunk of the log: a base offset, a self-reported byte
/// length used to advance the read cursor, and the records inside.
pub struct RecordBatch {
    pub base_offset: u64,
    pub records: Vec<Record>,
}

impl View for RecordBatch {
    type V = RecordBatchView;

    open spec fn view(&self) -> RecordBatchView {
        RecordBatchView { base_offset: self.base_offset, records: views_of(self.records@) }
    }
}

/// Decodes `count` consecutive records.
pub open spec fn spec_records_decode(s: Seq<u8>, count: int) -> Option<(Seq<RecordView>, int)>
    decreases count,
{
    if count <= 0 {
        Some((Seq::empty(), 0))
    } else {
        match spec_record_decode(s) {
            None => None,
            Some((r, n)) => match spec_records_decode(s.skip(n), count - 1) {
                None => None,
                Some((rs, k)) => Some((seq![r] + rs, n + k)),
            },
        }
    }
}

/// Decodes one batch: an 8-byte base offset, a 4-byte self-reported length
/// covering the rest of the batch, then a record count and that many
/// records inside the reported span. Bytes of the span after the records
/// are reserved space and ignored.
pub open spec fn spec_batch_decode(s: Seq<u8>) -> Option<(RecordBatchView, int)> {
    if s.len() < 16 {
        None
    } else {
        let blen_raw = spec_be32_val(s.subrange(8, 12));
        if blen_raw >= 0x8000_0000 || blen_raw < 4 {
            None
        } else {
            let blen = blen_raw as int;
            if s.len() < 12 + blen {
                None
            } else {
                let body = s.subrange(12, 12 + blen);
                let count = spec_be32_val(body.subrange(0, 4));
                if count >= 0x8000_0000 {
                    None
                } else {
                    match spec_records_decode(body.skip(4), count as int) {
                        None => None,
                        Some((rs, _)) => Some(
                            (
                                RecordBatchView {
                                    base_offset: spec_be64_val(s.subrange(0, 8)),
                                    records: rs,
                                },
                                12 + blen,
                            ),
                        ),
                    }
                }
            }
        }
    }
}

impl RecordBatch {
    #[verifier::spinoff_prover]
    #[verifier::rlimit(100)]
    pub fn decode(buf: &[u8]) -> (r: Result<(RecordBatch, usize), KafkaError>)
        ensures
            match spec_batch_decode(buf@) {
                Some(p) => {
                    &&& r matches Ok(q)
                    &&& q.0@ == p.0
                    &&& q.1 as int == p.1
                    &&& 16 <= p.1 <= buf@.len()
                },
                None => r == Err::<(RecordBatch, usize), KafkaError>(KafkaError::DecodeError),
            },
    {
        if buf.len() < 16 {
            return Err(KafkaError::DecodeError);
        }
        let base_offset = read_be64(buf, 0);
        let blen_raw = read_be32(buf, 8);
        if blen_raw >= 0x8000_0000 || blen_raw < 4 {
            return Err(KafkaError::DecodeError);
        }
        let blen = blen_raw as usize;
        if buf.len() - 12 < blen {
            return Err(KafkaError::DecodeError);
        }
        let body = slice_subrange(buf, 12, 12 + blen);
        proof {
            assert(body@ =~= buf@.subrange(12, 12 + blen as int));
        }
        let count_raw = read_be32(body, 0);
        if count_raw >= 0x8000_0000 {
            return Err(KafkaError::DecodeError);
        }
        let count = count_raw;
        let ghost body_view = body@;
        let mut records: Vec<Record> = Vec::new();
        let mut off: usize = 4;
        let mut i: u32 = 0;
        proof {
            assert(views_of(records@) =~= Seq::<RecordView>::empty());
        }
        #[verifier::loop_isolation(false)]
        while i < count
            invariant
                0 <= i <= count,
                4 <= off <= body_view.len(),
                views_of(records@).len() == i as int,
                spec_records_decode(body_view.skip(4), count as int) == (
                match spec_records_decode(body_view.skip(off as int), count - i) {
                    None => None::<(Seq<RecordView>, int)>,
                    Some((rs, k)) => Some((views_of(records@) + rs, (off - 4) + k)),
                }),
            decreases count - i,
        {
            let sub = slice_subrange(body, off, body.len());
            proof {
                assert(sub@ =~= body_view.skip(off as int));
            }
            match Record::decode(sub) {
                Err(_) => {
                    proof {
                        assert(spec_record_decode(body_view.skip(off as int)) is None);
                        assert(spec_records_decode(body_view.skip(off as int), count - i)
                            is None);
                    }
                    return Err(KafkaError::DecodeError);
                },
                Ok((rec, used)) => {
                    proof {
                        assert(body_view.skip(off as int).skip(used as int) =~= body_view.skip(
                            off + used,
                        ));
                        assert(views_of(records@.push(rec)) =~= views_of(records@).push(rec@));
                        let tail = spec_records_decode(body_view.skip(off + used), count - i - 1);
                        if tail is Some {
                            let (rs, k) = tail->Some_0;
                            assert(views_of(records@) + (seq![rec@] + rs) =~= views_of(
                                records@.push(rec),
                            ) + rs);
                        }
                    }
                    records.push(rec);
                    off = off + used;
                    i = i + 1;
                },
            }
        }
        proof {
            assert(spec_records_decode(body_view.skip(off as int), 0) == Some(
                (Seq::<RecordView>::empty(), 0int),
            ));
            assert(views_of(records@) + Seq::<RecordView>::empty() =~= views_of(records@));
            assert(spec_records_decode(body_view.skip(4), count as int) == Some(
                (views_of(records@), (off - 4) as int),
            ));
            assert(base_offset == spec_be64_val(buf@.subrange(0, 8)));
            assert(spec_batch_decode(buf@) == Some(
                (
                    RecordBatchView { base_offset: base_offset, records: views_of(records@) },
                    12 + blen as int,
                ),
            ));
        }
        Ok((RecordBatch { base_offset, records }, 12 + blen))
    }
}

/// Decodes the whole log: batch after batch until the buffer is exhausted.
/// A batch that fails to decode is fatal for the whole read.
pub open spec fn spec_batches_decode(s: Seq<u8>) -> Option<Seq<RecordBatchView>>
    decreases s.len(),
{
    if s.len() == 0 {
        Some(Seq::empty())
    } else {
        match spec_batch_decode(s) {
            None => None,
            Some((b, n)) => if n < 1 {
                None
            } else {
                match spec_batches_decode(s.skip(n)) {
                    None => None,
                    Some(bs) => Some(seq![b] + bs),
                }
            },
        }
    }
}

/// Reads every batch of an in-memory log image.
pub fn decode_record_batches(buf: &[u8]) -> (r: Result<Vec<RecordBatch>, KafkaError>)
    ensures
        match spec_batches_decode(buf@) {
            Some(bs) => r matches Ok(v) && views_of(v@) == bs,
            None => r == Err::<Vec<RecordBatch>, KafkaError>(KafkaError::DecodeError),
        },
{
    let mut record_batches: Vec<RecordBatch> = Vec::new();
    let mut offset: usize = 0;
    proof {
        assert(views_of(record_batches@) =~= Seq::<RecordBatchView>::empty());
        assert(buf@.skip(0) =~= buf@);
        if spec_batches_decode(buf@) is Some {
            let bs = spec_batches_decode(buf@)->Some_0;
            assert(views_of(record_batches@) + bs =~= bs);
        }
    }
    while offset < buf.len()
        invariant
            0 <= offset <= buf@.len(),
            spec_batches_decode(buf@) == (match spec_batches_decode(buf@.skip(offset as int)) {
                None => None::<Seq<RecordBatchView>>,
                Some(bs) => Some(views_of(record_batches@) + bs),
            }),
        decreases buf@.len() - offset,
    {
        let sub = slice_subrange(buf, offset, buf.len());
        proof {
            assert(sub@ =~= buf@.skip(offset as int));
        }
        match RecordBatch::decode(sub) {
            Err(_) => {
                proof {
                    assert(spec_batch_decode(buf@.skip(offset as int)) is None);
                }
                return Err(KafkaError::DecodeError);
            },
            Ok((record_batch, batch_byte_len)) => {
                proof {
                    assert(buf@.skip(offset as int).skip(batch_byte_len as int) =~= buf@.skip(
                        offset + batch_byte_len,
                    ));
                    assert(views_of(record_batches@.push(record_batch)) =~= views_of(
                        record_batches@,
                    ).push(record_batch@));
                    let tail = spec_batches_decode(buf@.skip(offset + batch_byte_len));
                    if tail is Some {
                        let bs = tail->Some_0;
                        assert(views_of(record_batches@) + (seq![record_batch@] + bs)
                            =~= views_of(record_batches@.push(record_batch)) + bs);
                    }
                }
                record_batches.push(record_batch);
                offset = offset + batch_byte_len;
            },
        }
    }
    proof {
        assert(buf@.skip(offset as int) =~= Seq::<u8>::empty());
        assert(spec_batches_decode(Seq::<u8>::empty()) == Some(Seq::<RecordBatchView>::empty()));
        assert(views_of(record_batches@) + Seq::<RecordBatchView>::empty() =~= views_of(
            record_batches@,
        ));
    }
    Ok(record_batches)
}

} // verus!

verus! {

//
// The metadata index: the topic bindings and partition records of the whole
// log, in discovery order. Rebuilt fresh from the log for every request.
//

/// The topic records of a batch's records, in order.
pub open spec fn spec_topic_entries_of_records(rs: Seq<RecordView>) -> Seq<TopicRecordView>
    decreases rs.len(),
{
    if rs.len() == 0 {
        Seq::empty()
    } else {
        (match rs[0].value {
            RecordValueView::TopicRecord(t) => seq![t],
            _ => Seq::empty(),
        }) + spec_topic_entries_of_records(rs.skip(1))
    }
}

/// The topic records of the whole log, batch after batch.
pub open spec fn spec_topic_entries(bs: Seq<RecordBatchView>) -> Seq<TopicRecordView>
    decreases bs.len(),
{
    if bs.len() == 0 {
        Seq::empty()
    } else {
        spec_topic_entries_of_records(bs[0].records) + spec_topic_entries(bs.skip(1))
    }
}

/// The partition records of a batch's records, in order.
pub open spec fn spec_partition_entries_of_records(rs: Seq<RecordView>) -> Seq<
    PartitionRecordView,
>
    decreases rs.len(),
{
    if rs.len() == 0 {
        Seq::empty()
    } else {
        (match rs[0].value {
            RecordValueView::PartitionRecord(p) => seq![p],
            _ => Seq::empty(),
        }) + spec_partition_entries_of_records(rs.skip(1))
    }
}

/// The partition records of the whole log, batch after batch.
pub open spec fn spec_partition_entries(bs: Seq<RecordBatchView>) -> Seq<PartitionRecordView>
    decreases bs.len(),
{
    if bs.len() == 0 {
        Seq::empty()
    } else {
        spec_partition_entries_of_records(bs[0].records) + spec_partition_entries(bs.skip(1))
    }
}

pub proof fn lemma_topic_records_snoc(rs: Seq<RecordView>, r: RecordView)
    ensures
        spec_topic_entries_of_records(rs.push(r)) == spec_topic_entries_of_records(rs) + (
        match r.value {
            RecordValueView::TopicRecord(t) => seq![t],
            _ => Seq::<TopicRecordView>::empty(),
        }),
    decreases rs.len(),
{
    let tail = (match r.value {
        RecordValueView::TopicRecord(t) => seq![t],
        _ => Seq::<TopicRecordView>::empty(),
    });
    if rs.len() == 0 {
        assert(rs.push(r)[0] == r);
        assert(rs.push(r).skip(1) =~= Seq::<RecordView>::empty());
        assert(spec_topic_entries_of_records(Seq::<RecordView>::empty())
            == Seq::<TopicRecordView>::empty());
        assert(spec_topic_entries_of_records(rs.push(r)) =~= spec_topic_entries_of_records(rs)
            + tail);
    } else {
        assert(rs.push(r)[0] == rs[0]);
        assert(rs.push(r).skip(1) =~= rs.skip(1).push(r));
        lemma_topic_records_snoc(rs.skip(1), r);
        assert(spec_topic_entries_of_records(rs.push(r)) =~= spec_topic_entries_of_records(rs)
            + tail);
    }
}

pub proof fn lemma_topic_entries_snoc(bs: Seq<RecordBatchView>, b: RecordBatchView)
    ensures
        spec_topic_entries(bs.push(b)) == spec_topic_entries(bs) + spec_topic_entries_of_records(
            b.records,
        ),
    decreases bs.len(),
{
    if bs.len() == 0 {
        assert(bs.push(b)[0] == b);
        assert(bs.push(b).skip(1) =~= Seq::<RecordBatchView>::empty());
        assert(spec_topic_entries(Seq::<RecordBatchView>::empty())
            == Seq::<TopicRecordView>::empty());
        assert(spec_topic_entries(bs.push(b)) =~= spec_topic_entries(bs)
            + spec_topic_entries_of_records(b.records));
    } else {
        assert(bs.push(b)[0] == bs[0]);
        assert(bs.push(b).skip(1) =~= bs.skip(1).push(b));
        lemma_topic_entries_snoc(bs.skip(1), b);
        assert(spec_topic_entries(bs.push(b)) =~= spec_topic_entries(bs)
            + spec_topic_entries_of_records(b.records));
    }
}

pub proof fn lemma_partition_records_snoc(rs: Seq<RecordView>, r: RecordView)
    ensures
        spec_partition_entries_of_records(rs.push(r)) == spec_partition_entries_of_records(rs) + (
        match r.value {
            RecordValueView::PartitionRecord(p) => seq![p],
            _ => Seq::<PartitionRecordView>::empty(),
        }),
    decreases rs.len(),
{
    let tail = (match r.value {
        RecordValueView::PartitionRecord(p) => seq![p],
        _ => Seq::<PartitionRecordView>::empty(),
    });
    if rs.len() == 0 {
        assert(rs.push(r)[0] == r);
        assert(rs.push(r).skip(1) =~= Seq::<RecordView>::empty());
        assert(spec_partition_entries_of_records(Seq::<RecordView>::empty())
            == Seq::<PartitionRecordView>::empty());
        assert(spec_partition_entries_of_records(rs.push(r))
            =~= spec_partition_entries_of_records(rs) + tail);
    } else {
        assert(rs.push(r)[0] == rs[0]);
        assert(rs.push(r).skip(1) =~= rs.skip(1).push(r));
        lemma_partition_records_snoc(rs.skip(1), r);
        assert(spec_partition_entries_of_records(rs.push(r))
            =~= spec_partition_entries_of_records(rs) + tail);
    }
}

pub proof fn lemma_partition_entries_snoc(bs: Seq<RecordBatchView>, b: RecordBatchView)
    ensures
        spec_partition_entries(bs.push(b)) == spec_partition_entries(bs)
            + spec_partition_entries_of_records(b.records),
    decreases bs.len(),
{
    if bs.len() == 0 {
        assert(bs.push(b)[0] == b);
        assert(bs.push(b).skip(1) =~= Seq::<RecordBatchView>::empty());
        assert(spec_partition_entries(Seq::<RecordBatchView>::empty())
            == Seq::<PartitionRecordView>::empty());
        assert(spec_partition_entries(bs.push(b)) =~= spec_partition_entries(bs)
            + spec_partition_entries_of_records(b.records));
    } else {
        assert(bs.push(b)[0] == bs[0]);
        assert(bs.push(b).skip(1) =~= bs.skip(1).push(b));
        lemma_partition_entries_snoc(bs.skip(1), b);
        assert(spec_partition_entries(bs.push(b)) =~= spec_partition_entries(bs)
            + spec_partition_entries_of_records(b.records));
    }
}

/// The mathematical content of the index.
pub struct MetadataIndexView {
    pub topics: Seq<TopicRecordView>,
    pub partitions: Seq<PartitionRecordView>,
}

/// The in-memory, read-only index over one read of the log: every topic
/// binding and every partition record, in discovery order. Contradictory
/// records are all retained; name lookups resolve to the latest binding.
pub struct MetadataIndex {
    pub topics: Vec<TopicRecord>,
    pub partitions: Vec<PartitionRecord>,
}

impl View for MetadataIndex {
    type V = MetadataIndexView;

    open spec fn view(&self) -> MetadataIndexView {
        MetadataIndexView {
            topics: views_of(self.topics@),
            partitions: views_of(self.partitions@),
        }
    }
}

/// Copies a node-id list into an owned vector.
pub fn copy_nodes(src: &Vec<i32>) -> (r: Vec<i32>)
    ensures
        r@ == src@,
{
    let mut r: Vec<i32> = Vec::new();
    let mut i: usize = 0;
    while i < src.len()
        invariant
            0 <= i <= src@.len(),
            r@ == src@.take(i as int),
        decreases src@.len() - i,
    {
        r.push(src[i]);
        proof {
            assert(r@ =~= src@.take(i + 1));
        }
        i = i + 1;
    }
    proof {
        assert(src@.take(src@.len() as int) =~= src@);
    }
    r
}

fn clone_topic_record(t: &TopicRecord) -> (r: TopicRecord)
    ensures
        r@ == t@,
{
    TopicRecord {
        topic_name: CompactString { data: t.topic_name.data.clone() },
        topic_id: copy_bytes(t.topic_id.as_slice()),
    }
}

fn clone_partition_record(p: &PartitionRecord) -> (r: PartitionRecord)
    ensures
        r@ == p@,
{
    PartitionRecord {
        partition_id: p.partition_id,
        topic_id: copy_bytes(p.topic_id.as_slice()),
        replica_array: CompactArray { data: copy_nodes(&p.replica_array.data) },
        isr_array: CompactArray { data: copy_nodes(&p.isr_array.data) },
        leader: p.leader,
        leader_epoch: p.leader_epoch,
    }
}

impl MetadataIndex {
    /// Builds the index from every record of every batch, in order.
    pub fn build(batches: &Vec<RecordBatch>) -> (r: MetadataIndex)
        ensures
            r@.topics == spec_topic_entries(views_of(batches@)),
            r@.partitions == spec_partition_entries(views_of(batches@)),
    {
        let ghost bviews = views_of(batches@);
        let mut topics: Vec<TopicRecord> = Vec::new();
        let mut partitions: Vec<PartitionRecord> = Vec::new();
        proof {
            assert(views_of(topics@) =~= Seq::<TopicRecordView>::empty());
            assert(views_of(partitions@) =~= Seq::<PartitionRecordView>::empty());
            assert(spec_topic_entries(bviews.take(0)) =~= Seq::<TopicRecordView>::empty()) by {
                assert(bviews.take(0) =~= Seq::<RecordBatchView>::empty());
            }
            assert(spec_partition_entries(bviews.take(0)) =~= Seq::<PartitionRecordView>::empty())
                by {
                assert(bviews.take(0) =~= Seq::<RecordBatchView>::empty());
            }
        }
        let mut i: usize = 0;
        #[verifier::loop_isolation(false)]
        while i < batches.len()
            invariant
                0 <= i <= batches@.len(),
                views_of(topics@) == spec_topic_entries(bviews.take(i as int)),
                views_of(partitions@) == spec_partition_entries(bviews.take(i as int)),
            decreases batches@.len() - i,
        {
            let batch = &batches[i];
            let ghost rviews = bviews[i as int].records;
            let mut j: usize = 0;
            proof {
                assert(rviews.take(0) =~= Seq::<RecordView>::empty());
                assert(views_of(topics@) + Seq::<TopicRecordView>::empty() =~= views_of(topics@));
                assert(views_of(partitions@) + Seq::<PartitionRecordView>::empty() =~= views_of(
                    partitions@,
                ));
            }
            let ghost topics0 = views_of(topics@);
            let ghost partitions0 = views_of(partitions@);
            #[verifier::loop_isolation(false)]
            while j < batch.records.len()
                invariant
                    0 <= j <= batch.records@.len(),
                    batch.records@.len() == rviews.len(),
                    views_of(topics@) == topics0 + spec_topic_entries_of_records(
                        rviews.take(j as int),
                    ),
                    views_of(partitions@) == partitions0 + spec_partition_entries_of_records(
                        rviews.take(j as int),
                    ),
                decreases batch.records@.len() - j,
            {
                proof {
                    assert(batch.records@[j as int]@ == rviews[j as int]);
                    lemma_topic_records_snoc(rviews.take(j as int), rviews[j as int]);
                    lemma_partition_records_snoc(rviews.take(j as int), rviews[j as int]);
                    assert(rviews.take(j as int).push(rviews[j as int]) =~= rviews.take(j + 1));
                }
                match &batch.records[j].value {
                    RecordValue::TopicRecord(topic_record) => {
                        let copied = clone_topic_record(topic_record);
                        proof {
                            assert(views_of(topics@.push(copied)) =~= views_of(topics@).push(
                                copied@,
                            ));
                            assert(views_of(topics@).push(copied@) =~= topics0
                                + spec_topic_entries_of_records(rviews.take(j + 1)));
                            assert(views_of(partitions@) =~= partitions0
                                + spec_partition_entries_of_records(rviews.take(j + 1)));
                        }
                        topics.push(copied);
                    },
                    RecordValue::PartitionRecord(partition_record) => {
                        let copied = clone_partition_record(partition_record);
                        proof {
                            assert(views_of(partitions@.push(copied)) =~= views_of(
                                partitions@,
                            ).push(copied@));
                            assert(views_of(partitions@).push(copied@) =~= partitions0
                                + spec_partition_entries_of_records(rviews.take(j + 1)));
                            assert(views_of(topics@) =~= topics0 + spec_topic_entries_of_records(
                                rviews.take(j + 1),
                            ));
                        }
                        partitions.push(copied);
                    },
                    RecordValue::Unknown => {
                        proof {
                            assert(views_of(topics@) =~= topics0 + spec_topic_entries_of_records(
                                rviews.take(j + 1),
                            ));
                            assert(views_of(partitions@) =~= partitions0
                                + spec_partition_entries_of_records(rviews.take(j + 1)));
                        }
                    },
                }
                j = j + 1;
            }
            proof {
                assert(rviews.take(rviews.len() as int) =~= rviews);
                lemma_topic_entries_snoc(bviews.take(i as int), bviews[i as int]);
                lemma_partition_entries_snoc(bviews.take(i as int), bviews[i as int]);
                assert(bviews.take(i as int).push(bviews[i as int]) =~= bviews.take(i + 1));
            }
            i = i + 1;
        }
        proof {
            assert(bviews.take(bviews.len() as int) =~= bviews);
        }
        MetadataIndex { topics, partitions }
    }
}

/// The identifier bound to a topic name, resolving duplicate bindings to
/// the latest one in the log; `None` when the name is unbound.
pub open spec fn spec_lookup_topic(ts: Seq<TopicRecordView>, name: Seq<char>) -> Option<Seq<u8>>
    decreases ts.len(),
{
    if ts.len() == 0 {
        None
    } else if ts.last().topic_name == name {
        Some(ts.last().topic_id)
    } else {
        spec_lookup_topic(ts.drop_last(), name)
    }
}

impl MetadataIndex {
    /// Looks a topic name up, latest binding first.
    pub fn topic_id_of(&self, name: &String) -> (r: Option<Vec<u8>>)
        ensures
            match spec_lookup_topic(self@.topics, name@) {
                Some(id) => r matches Some(v) && v@ == id,
                None => r is None,
            },
    {
        let ghost ts = self@.topics;
        let mut i: usize = self.topics.len();
        proof {
            assert(ts.take(i as int) =~= ts);
        }
        while i > 0
            invariant
                0 <= i <= self.topics@.len(),
                ts == self@.topics,
                spec_lookup_topic(ts, name@) == spec_lookup_topic(ts.take(i as int), name@),
            decreases i,
        {
            i = i - 1;
            let entry = &self.topics[i];
            proof {
                assert(entry@ == ts[i as int]);
                assert(ts.take(i + 1).last() == ts[i as int]);
                assert(ts.take(i + 1).drop_last() =~= ts.take(i as int));
            }
            if entry.topic_name.data == *name {
                let id = copy_bytes(entry.topic_id.as_slice());
                return Some(id);
            }
        }
        proof {
            assert(ts.take(0) =~= Seq::<TopicRecordView>::empty());
        }
        None
    }
}

/// The partition records bound to a topic identifier, in discovery order.
pub open spec fn spec_partitions_of(ps: Seq<PartitionRecordView>, id: Seq<u8>) -> Seq<
    PartitionRecordView,
>
    decreases ps.len(),
{
    if ps.len() == 0 {
        Seq::empty()
    } else {
        (if ps[0].topic_id == id {
            seq![ps[0]]
        } else {
            Seq::<PartitionRecordView>::empty()
        }) + spec_partitions_of(ps.skip(1), id)
    }
}

pub proof fn lemma_partitions_of_snoc(ps: Seq<PartitionRecordView>, p: PartitionRecordView, id: Seq<u8>)
    ensures
        spec_partitions_of(ps.push(p), id) == spec_partitions_of(ps, id) + (if p.topic_id == id {
            seq![p]
        } else {
            Seq::<PartitionRecordView>::empty()
        }),
    decreases ps.len(),
{
    let tail = (if p.topic_id == id {
        seq![p]
    } else {
        Seq::<PartitionRecordView>::empty()
    });
    if ps.len() == 0 {
        assert(ps.push(p)[0] == p);
        assert(ps.push(p).skip(1) =~= Seq::<PartitionRecordView>::empty());
        assert(spec_partitions_of(Seq::<PartitionRecordView>::empty(), id)
            == Seq::<PartitionRecordView>::empty());
        assert(spec_partitions_of(ps.push(p), id) =~= spec_partitions_of(ps, id) + tail);
    } else {
        assert(ps.push(p)[0] == ps[0]);
        assert(ps.push(p).skip(1) =~= ps.skip(1).push(p));
        lemma_partitions_of_snoc(ps.skip(1), p, id);
        assert(spec_partitions_of(ps.push(p), id) =~= spec_partitions_of(ps, id) + tail);
    }
}

/// Compares two byte strings.
pub fn bytes_eq(a: &Vec<u8>, b: &Vec<u8>) -> (r: bool)
    ensures
        r == (a@ == b@),
{
    if a.len() != b.len() {
        proof {
            assert(a@ != b@);
        }
        return false;
    }
    let mut i: usize = 0;
    while i < a.len()
        invariant
            0 <= i <= a@.len(),
            a@.len() == b@.len(),
            forall|j: int| 0 <= j < i ==> a@[j] == b@[j],
        decreases a@.len() - i,
    {
        if a[i] != b[i] {
            proof {
                assert(a@[i as int] != b@[i as int]);
            }
            return false;
        }
        i = i + 1;
    }
    proof {
        assert(a@ =~= b@);
    }
    true
}

} // verus!
