//! The replicated log and its durable form.
//!
//! The log is mirrored to an append-only file of frames. This module works out
//! the bytes; whoever holds the file reads, writes and truncates it.
use crate::codec;
use crate::state::{Record, RecordView};
use vstd::prelude::*;
use vstd::slice::slice_subrange;

verus! {

/// Frame header: `u32` payload length, `u32` CRC32 of the payload.
pub const HEADER_LEN: usize = 8;

// -------------------------------------------------------------------- entries

/// What a committed log entry instructs the cluster to do.
///
/// `Noop` exists because a freshly elected leader appends one to discover its
/// own commit point without waiting for client traffic.
#[derive(Debug, PartialEq)]
pub enum EntryPayload {
    Noop,
    Queue(Record),
}

/// One slot in the replicated log. `term` and `index` belong to the protocol;
/// the payload belongs to the application.
#[derive(Debug, PartialEq)]
pub struct LogEntry {
    pub term: u64,
    pub index: u64,
    pub payload: EntryPayload,
}

/// What an [`EntryPayload`] says.
pub enum PayloadView {
    Noop,
    Queue(RecordView),
}

/// What a [`LogEntry`] says.
pub struct EntryView {
    pub term: u64,
    pub index: u64,
    pub payload: PayloadView,
}

impl View for EntryPayload {
    type V = PayloadView;

    open spec fn view(&self) -> PayloadView {
        match self {
            EntryPayload::Noop => PayloadView::Noop,
            EntryPayload::Queue(record) => PayloadView::Queue(record@),
        }
    }
}

impl View for LogEntry {
    type V = EntryView;

    open spec fn view(&self) -> EntryView {
        EntryView { term: self.term, index: self.index, payload: self.payload@ }
    }
}

impl Clone for EntryPayload {
    fn clone(&self) -> (r: Self)
        ensures
            r@ == self@,
    {
        match self {
            EntryPayload::Noop => EntryPayload::Noop,
            EntryPayload::Queue(record) => EntryPayload::Queue(record.clone()),
        }
    }
}

impl Clone for LogEntry {
    fn clone(&self) -> (r: Self)
        ensures
            r@ == self@,
    {
        LogEntry { term: self.term, index: self.index, payload: self.payload.clone() }
    }
}

/// The views of a sequence of entries.
pub open spec fn entry_views(entries: Seq<LogEntry>) -> Seq<EntryView> {
    entries.map_values(|e: LogEntry| e@)
}

// ------------------------------------------------------ entries in binary form

/// The binary form of a record: its position among the kinds of record, then
/// its fields in order.
pub open spec fn record_bytes(record: RecordView) -> Seq<u8> {
    match record {
        RecordView::Enqueued { job_id, payload, created_at } => codec::varint(0) + codec::varint(
            job_id as nat,
        ) + codec::string_bytes(payload) + codec::varint(codec::zigzag(created_at as int)),
        RecordView::Leased { job_id, delivery_id, visible_at } => codec::varint(1)
            + codec::varint(job_id as nat) + codec::varint(delivery_id as nat) + codec::varint(
            codec::zigzag(visible_at as int),
        ),
        RecordView::Acked { job_id, delivery_id } => codec::varint(2) + codec::varint(
            job_id as nat,
        ) + codec::varint(delivery_id as nat),
        RecordView::Retried { job_id, delivery_id } => codec::varint(3) + codec::varint(
            job_id as nat,
        ) + codec::varint(delivery_id as nat),
        RecordView::DeadLettered { job_id, delivery_id } => codec::varint(4) + codec::varint(
            job_id as nat,
        ) + codec::varint(delivery_id as nat),
        RecordView::Redriven { job_id } => codec::varint(5) + codec::varint(job_id as nat),
    }
}

/// The binary form of an entry: term, index, and the payload behind its
/// position among the kinds of payload.
pub open spec fn entry_bytes(entry: EntryView) -> Seq<u8> {
    codec::varint(entry.term as nat) + codec::varint(entry.index as nat) + match entry.payload {
        PayloadView::Noop => codec::varint(0),
        PayloadView::Queue(record) => codec::varint(1) + record_bytes(record),
    }
}

/// The two identifiers at the front of `s`, with what follows them.
pub open spec fn read_pair(s: Seq<u8>) -> Option<((u128, u128), Seq<u8>)> {
    match codec::read_u128(s) {
        Some((a, s)) => match codec::read_u128(s) {
            Some((b, s)) => Some(((a, b), s)),
            None => None,
        },
        None => None,
    }
}

/// The record at the front of `s`, with what follows it.
pub open spec fn read_record(s: Seq<u8>) -> Option<(RecordView, Seq<u8>)> {
    match codec::read_u32(s) {
        None => None,
        Some((kind, s)) => if kind == 0 {
            match codec::read_u128(s) {
                None => None,
                Some((job_id, s)) => match codec::read_string(s) {
                    None => None,
                    Some((payload, s)) => match codec::read_i64(s) {
                        None => None,
                        Some((created_at, s)) => Some(
                            (RecordView::Enqueued { job_id, payload, created_at }, s),
                        ),
                    },
                },
            }
        } else if kind == 1 {
            match read_pair(s) {
                None => None,
                Some(((job_id, delivery_id), s)) => match codec::read_i64(s) {
                    None => None,
                    Some((visible_at, s)) => Some(
                        (RecordView::Leased { job_id, delivery_id, visible_at }, s),
                    ),
                },
            }
        } else if kind == 2 || kind == 3 || kind == 4 {
            match read_pair(s) {
                None => None,
                Some(((job_id, delivery_id), s)) => Some(
                    (
                        if kind == 2 {
                            RecordView::Acked { job_id, delivery_id }
                        } else if kind == 3 {
                            RecordView::Retried { job_id, delivery_id }
                        } else {
                            RecordView::DeadLettered { job_id, delivery_id }
                        },
                        s,
                    ),
                ),
            }
        } else if kind == 5 {
            match codec::read_u128(s) {
                None => None,
                Some((job_id, s)) => Some((RecordView::Redriven { job_id }, s)),
            }
        } else {
            None
        },
    }
}

/// The payload at the front of `s`, with what follows it.
pub open spec fn read_payload(s: Seq<u8>) -> Option<(PayloadView, Seq<u8>)> {
    match codec::read_u32(s) {
        None => None,
        Some((kind, s)) => if kind == 0 {
            Some((PayloadView::Noop, s))
        } else if kind == 1 {
            match read_record(s) {
                None => None,
                Some((record, s)) => Some((PayloadView::Queue(record), s)),
            }
        } else {
            None
        },
    }
}

/// The entry at the front of `s`, if there is one. What follows it is ignored.
#[verifier::opaque]
pub open spec fn read_entry(s: Seq<u8>) -> Option<EntryView> {
    match codec::read_u64(s) {
        None => None,
        Some((term, s)) => match codec::read_u64(s) {
            None => None,
            Some((index, s)) => match read_payload(s) {
                None => None,
                Some((payload, _)) => Some(EntryView { term, index, payload }),
            },
        },
    }
}

/// Whether the strings in an entry have a length that a `u64` can state.
pub open spec fn writable(entry: EntryView) -> bool {
    match entry.payload {
        PayloadView::Queue(RecordView::Enqueued { payload, .. }) => vstd::utf8::encode_utf8(
            payload,
        ).len() <= u64::MAX,
        _ => true,
    }
}

proof fn lemma_read_pair(a: u128, b: u128, rest: Seq<u8>)
    ensures
        read_pair(codec::varint(a as nat) + codec::varint(b as nat) + rest) == Some(((a, b), rest)),
{
    let tail = codec::varint(b as nat) + rest;
    assert(codec::varint(a as nat) + codec::varint(b as nat) + rest =~= codec::varint(a as nat)
        + tail);
    codec::lemma_read_u128(a, tail);
    codec::lemma_read_u128(b, rest);
}

proof fn lemma_read_enqueued(job_id: u128, payload: Seq<char>, created_at: i64, rest: Seq<u8>)
    requires
        vstd::utf8::encode_utf8(payload).len() <= u64::MAX,
    ensures
        ({
            let record = RecordView::Enqueued { job_id, payload, created_at };
            read_record(record_bytes(record) + rest) == Some((record, rest))
        }),
{
    let record = RecordView::Enqueued { job_id, payload, created_at };
    let s3 = codec::varint(codec::zigzag(created_at as int)) + rest;
    let s2 = codec::string_bytes(payload) + s3;
    let s1 = codec::varint(job_id as nat) + s2;
    assert(record_bytes(record) + rest =~= codec::varint(0) + s1);
    codec::lemma_read_u32(0, s1);
    codec::lemma_read_u128(job_id, s2);
    codec::lemma_read_string(payload, s3);
    codec::lemma_read_i64(created_at, rest);
}

proof fn lemma_read_leased(job_id: u128, delivery_id: u128, visible_at: i64, rest: Seq<u8>)
    ensures
        ({
            let record = RecordView::Leased { job_id, delivery_id, visible_at };
            read_record(record_bytes(record) + rest) == Some((record, rest))
        }),
{
    let record = RecordView::Leased { job_id, delivery_id, visible_at };
    let s2 = codec::varint(codec::zigzag(visible_at as int)) + rest;
    let s1 = codec::varint(job_id as nat) + codec::varint(delivery_id as nat) + s2;
    assert(record_bytes(record) + rest =~= codec::varint(1) + s1);
    codec::lemma_read_u32(1, s1);
    lemma_read_pair(job_id, delivery_id, s2);
    codec::lemma_read_i64(visible_at, rest);
}

proof fn lemma_read_settled(kind: u32, job_id: u128, delivery_id: u128, rest: Seq<u8>)
    ensures
        ({
            let s = codec::varint(kind as nat) + codec::varint(job_id as nat) + codec::varint(
                delivery_id as nat,
            ) + rest;
            &&& codec::read_u32(s) is Some
            &&& codec::read_u32(s).unwrap().0 == kind
            &&& read_pair(codec::read_u32(s).unwrap().1) == Some(((job_id, delivery_id), rest))
        }),
{
    let s1 = codec::varint(job_id as nat) + codec::varint(delivery_id as nat) + rest;
    assert(codec::varint(kind as nat) + codec::varint(job_id as nat) + codec::varint(
        delivery_id as nat,
    ) + rest =~= codec::varint(kind as nat) + s1);
    codec::lemma_read_u32(kind, s1);
    lemma_read_pair(job_id, delivery_id, rest);
}

proof fn lemma_read_redriven(job_id: u128, rest: Seq<u8>)
    ensures
        ({
            let record = RecordView::Redriven { job_id };
            read_record(record_bytes(record) + rest) == Some((record, rest))
        }),
{
    let record = RecordView::Redriven { job_id };
    let s1 = codec::varint(job_id as nat) + rest;
    assert(record_bytes(record) + rest =~= codec::varint(5) + s1);
    codec::lemma_read_u32(5, s1);
    codec::lemma_read_u128(job_id, rest);
}

proof fn lemma_read_record(record: RecordView, rest: Seq<u8>)
    requires
        writable(EntryView { term: 0, index: 0, payload: PayloadView::Queue(record) }),
    ensures
        read_record(record_bytes(record) + rest) == Some((record, rest)),
{
    match record {
        RecordView::Enqueued { job_id, payload, created_at } => {
            lemma_read_enqueued(job_id, payload, created_at, rest);
        },
        RecordView::Leased { job_id, delivery_id, visible_at } => {
            lemma_read_leased(job_id, delivery_id, visible_at, rest);
        },
        RecordView::Acked { job_id, delivery_id } => {
            lemma_read_settled(2, job_id, delivery_id, rest);
        },
        RecordView::Retried { job_id, delivery_id } => {
            lemma_read_settled(3, job_id, delivery_id, rest);
        },
        RecordView::DeadLettered { job_id, delivery_id } => {
            lemma_read_settled(4, job_id, delivery_id, rest);
        },
        RecordView::Redriven { job_id } => {
            lemma_read_redriven(job_id, rest);
        },
    }
}

/// An entry is read back from its own binary form.
pub proof fn law_entry_reads_back(entry: EntryView)
    requires
        writable(entry),
    ensures
        read_entry(entry_bytes(entry)) == Some(entry),
{
    reveal(read_entry);
    let none = Seq::<u8>::empty();
    match entry.payload {
        PayloadView::Noop => {
            let s2 = codec::varint(0) + none;
            let s1 = codec::varint(entry.index as nat) + s2;
            assert(entry_bytes(entry) =~= codec::varint(entry.term as nat) + s1);
            codec::lemma_read_u64(entry.term, s1);
            codec::lemma_read_u64(entry.index, s2);
            codec::lemma_read_u32(0, none);
        },
        PayloadView::Queue(record) => {
            let s3 = record_bytes(record) + none;
            let s2 = codec::varint(1) + s3;
            let s1 = codec::varint(entry.index as nat) + s2;
            assert(entry_bytes(entry) =~= codec::varint(entry.term as nat) + s1);
            codec::lemma_read_u64(entry.term, s1);
            codec::lemma_read_u64(entry.index, s2);
            codec::lemma_read_u32(1, s3);
            lemma_read_record(record, none);
        },
    }
}

/// What follows an entry's binary form does not keep the entry from being read.
pub proof fn law_entry_is_read_whatever_follows(entry: EntryView, more: Seq<u8>)
    requires
        match entry.payload {
            PayloadView::Queue(RecordView::Enqueued { payload, .. }) => vstd::utf8::encode_utf8(
                payload,
            ).len() <= u64::MAX,
            _ => true,
        },
    ensures
        read_entry(entry_bytes(entry) + more) == Some(entry),
{
    let term = codec::varint(entry.term as nat);
    let index = codec::varint(entry.index as nat);
    let payload = match entry.payload {
        PayloadView::Noop => codec::varint(0),
        PayloadView::Queue(record) => codec::varint(1) + record_bytes(record),
    };
    lemma_joined_on(term, index, payload, more);
    codec::lemma_read_u64(entry.term, index + (payload + more));
    codec::lemma_read_u64(entry.index, payload + more);
    lemma_read_payload(entry, more);
    assert(read_entry(entry_bytes(entry) + more) == Some(entry)) by {
        reveal(read_entry);
    }
}

proof fn lemma_joined_on(a: Seq<u8>, b: Seq<u8>, c: Seq<u8>, d: Seq<u8>)
    ensures
        a + b + c + d == a + (b + (c + d)),
{
    assert(a + b + c + d =~= a + (b + (c + d)));
}

proof fn lemma_read_payload(entry: EntryView, more: Seq<u8>)
    requires
        writable(entry),
    ensures
        ({
            let payload = match entry.payload {
                PayloadView::Noop => codec::varint(0),
                PayloadView::Queue(record) => codec::varint(1) + record_bytes(record),
            };
            read_payload(payload + more) == Some((entry.payload, more))
        }),
{
    match entry.payload {
        PayloadView::Noop => {
            codec::lemma_read_u32(0, more);
        },
        PayloadView::Queue(record) => {
            let body = record_bytes(record) + more;
            assert(codec::varint(1) + record_bytes(record) + more =~= codec::varint(1) + body);
            codec::lemma_read_u32(1, body);
            lemma_read_record(record, more);
        },
    }
}

/// An entry is read part by part, from whatever bytes: its term, its index, and then
/// its kind, which tells whether a record follows. Where a part is missing there is
/// no entry.
pub proof fn law_entry_is_read_part_by_part(s: Seq<u8>)
    ensures
        match codec::read_u64(s) {
            None => read_entry(s) is None,
            Some((term, a)) => match codec::read_u64(a) {
                None => read_entry(s) is None,
                Some((index, b)) => match codec::read_u32(b) {
                    None => read_entry(s) is None,
                    Some((kind, c)) => {
                        &&& kind == 0 ==> read_entry(s) == Some(
                            EntryView { term, index, payload: PayloadView::Noop },
                        )
                        &&& kind == 1 ==> match read_record(c) {
                            None => read_entry(s) is None,
                            Some((record, _)) => read_entry(s) == Some(
                                EntryView { term, index, payload: PayloadView::Queue(record) },
                            ),
                        }
                        &&& kind > 1 ==> read_entry(s) is None
                    },
                },
            },
        },
{
    reveal(read_entry);
}

/// A record is read part by part, from whatever bytes: its kind, its job, and what
/// else a record of its kind says. Where a part is missing, or the kind is none of
/// those that there are, there is no record.
pub proof fn law_record_is_read_part_by_part(s: Seq<u8>)
    ensures
        match codec::read_u32(s) {
            None => read_record(s) is None,
            Some((kind, a)) => match codec::read_u128(a) {
                None => read_record(s) is None,
                Some((job_id, b)) => {
                    &&& kind == 0 ==> match codec::read_string(b) {
                        Some((payload, c)) => match codec::read_i64(c) {
                            Some((created_at, d)) => read_record(s) == Some(
                                (RecordView::Enqueued { job_id, payload, created_at }, d),
                            ),
                            None => read_record(s) is None,
                        },
                        None => read_record(s) is None,
                    }
                    &&& 1 <= kind <= 4 ==> match codec::read_u128(b) {
                        Some((delivery_id, c)) => {
                            &&& kind == 1 ==> match codec::read_i64(c) {
                                Some((visible_at, d)) => read_record(s) == Some(
                                    (RecordView::Leased { job_id, delivery_id, visible_at }, d),
                                ),
                                None => read_record(s) is None,
                            }
                            &&& kind == 2 ==> read_record(s) == Some(
                                (RecordView::Acked { job_id, delivery_id }, c),
                            )
                            &&& kind == 3 ==> read_record(s) == Some(
                                (RecordView::Retried { job_id, delivery_id }, c),
                            )
                            &&& kind == 4 ==> read_record(s) == Some(
                                (RecordView::DeadLettered { job_id, delivery_id }, c),
                            )
                        },
                        None => read_record(s) is None,
                    }
                    &&& kind == 5 ==> read_record(s) == Some((RecordView::Redriven { job_id }, b))
                    &&& kind > 5 ==> read_record(s) is None
                },
            },
        },
{
}

/// Appends the binary form of a record to `out`.
fn put_record(out: &mut Vec<u8>, record: &Record)
    ensures
        final(out)@ == old(out)@ + record_bytes(record@),
{
    match record {
        Record::Enqueued { job_id, payload, created_at } => {
            codec::put_u32(out, 0);
            codec::put_u128(out, *job_id);
            codec::put_str(out, payload.as_str());
            codec::put_i64(out, *created_at);
        },
        Record::Leased { job_id, delivery_id, visible_at } => {
            codec::put_u32(out, 1);
            codec::put_u128(out, *job_id);
            codec::put_u128(out, *delivery_id);
            codec::put_i64(out, *visible_at);
        },
        Record::Acked { job_id, delivery_id } => {
            codec::put_u32(out, 2);
            codec::put_u128(out, *job_id);
            codec::put_u128(out, *delivery_id);
        },
        Record::Retried { job_id, delivery_id } => {
            codec::put_u32(out, 3);
            codec::put_u128(out, *job_id);
            codec::put_u128(out, *delivery_id);
        },
        Record::DeadLettered { job_id, delivery_id } => {
            codec::put_u32(out, 4);
            codec::put_u128(out, *job_id);
            codec::put_u128(out, *delivery_id);
        },
        Record::Redriven { job_id } => {
            codec::put_u32(out, 5);
            codec::put_u128(out, *job_id);
        },
    }
    assert(out@ =~= old(out)@ + record_bytes(record@));
}

/// The binary form of an entry, as it goes to a peer or into a frame.
pub fn encode_entry(entry: &LogEntry) -> (r: Vec<u8>)
    ensures
        r@ == entry_bytes(entry@),
{
    let mut out: Vec<u8> = Vec::new();
    codec::put_u64(&mut out, entry.term);
    codec::put_u64(&mut out, entry.index);
    match &entry.payload {
        EntryPayload::Noop => {
            codec::put_u32(&mut out, 0);
        },
        EntryPayload::Queue(record) => {
            codec::put_u32(&mut out, 1);
            put_record(&mut out, record);
        },
    }
    assert(out@ =~= entry_bytes(entry@));
    out
}

/// Splits two identifiers off the front of `bytes`.
fn take_pair<'a>(bytes: &'a [u8]) -> (r: Result<(u128, u128, &'a [u8]), codec::Malformed>)
    ensures
        match read_pair(bytes@) {
            Some((ids, rest)) => r is Ok && (r->Ok_0.0, r->Ok_0.1) == ids && r->Ok_0.2@ == rest,
            None => r is Err,
        },
{
    let (a, rest) = codec::take_u128(bytes)?;
    let (b, rest) = codec::take_u128(rest)?;
    Ok((a, b, rest))
}

/// Reads the record at the front of `bytes`.
fn take_record(bytes: &[u8]) -> (r: Result<Record, codec::Malformed>)
    ensures
        match read_record(bytes@) {
            Some((record, _)) => r is Ok && r->Ok_0@ == record,
            None => r is Err,
        },
{
    let (kind, rest) = codec::take_u32(bytes)?;
    if kind == 0 {
        let (job_id, rest) = codec::take_u128(rest)?;
        let (payload, rest) = codec::take_string(rest)?;
        let (created_at, _) = codec::take_i64(rest)?;
        Ok(Record::Enqueued { job_id, payload, created_at })
    } else if kind == 1 {
        let (job_id, delivery_id, rest) = take_pair(rest)?;
        let (visible_at, _) = codec::take_i64(rest)?;
        Ok(Record::Leased { job_id, delivery_id, visible_at })
    } else if kind == 2 {
        let (job_id, delivery_id, _) = take_pair(rest)?;
        Ok(Record::Acked { job_id, delivery_id })
    } else if kind == 3 {
        let (job_id, delivery_id, _) = take_pair(rest)?;
        Ok(Record::Retried { job_id, delivery_id })
    } else if kind == 4 {
        let (job_id, delivery_id, _) = take_pair(rest)?;
        Ok(Record::DeadLettered { job_id, delivery_id })
    } else if kind == 5 {
        let (job_id, _) = codec::take_u128(rest)?;
        Ok(Record::Redriven { job_id })
    } else {
        Err(codec::Malformed)
    }
}

/// Reads an entry from its binary form. Bytes past its end are ignored.
pub fn decode_entry(bytes: &[u8]) -> (r: Result<LogEntry, codec::Malformed>)
    ensures
        match read_entry(bytes@) {
            Some(entry) => r is Ok && r->Ok_0@ == entry,
            None => r is Err && r->Err_0 == codec::Malformed,
        },
{
    proof {
        reveal(read_entry);
    }
    let (term, rest) = codec::take_u64(bytes)?;
    let (index, rest) = codec::take_u64(rest)?;
    let (kind, rest) = codec::take_u32(rest)?;
    if kind == 0 {
        Ok(LogEntry { term, index, payload: EntryPayload::Noop })
    } else if kind == 1 {
        let record = take_record(rest)?;
        Ok(LogEntry { term, index, payload: EntryPayload::Queue(record) })
    } else {
        Err(codec::Malformed)
    }
}

// ---------------------------------------------------------------------- frames

/// The CRC32 of some bytes, as `crc32fast::hash` computes it.
pub uninterp spec fn crc32(bytes: Seq<u8>) -> u32;

/// `crc32fast::hash`: the checksum depends on the bytes alone.
#[verifier::external_body]
fn checksum(bytes: &[u8]) -> (r: u32)
    ensures
        r == crc32(bytes@),
{
    crc32fast::hash(bytes)
}

/// The frame of an entry: the low 32 bits of the length of its binary form,
/// the checksum of that form, and the form itself.
pub open spec fn frame_bytes(entry: EntryView) -> Seq<u8> {
    let payload = entry_bytes(entry);
    codec::le_bytes(payload.len() % 0x1_0000_0000, 4) + codec::le_bytes(crc32(payload) as nat, 4)
        + payload
}

/// The frames of entries one after the other.
pub open spec fn frames(entries: Seq<EntryView>) -> Seq<u8>
    decreases entries.len(),
{
    if entries.len() == 0 {
        Seq::empty()
    } else {
        frames(entries.drop_last()) + frame_bytes(entries.last())
    }
}

/// The entry framed at offset `at` of `data` and the offset where its frame
/// ends. There is none when the header or the payload is cut short, when the
/// checksum is off, and when the payload is not an entry.
pub open spec fn next_frame(data: Seq<u8>, at: int) -> Option<(EntryView, int)> {
    if at + 8 > data.len() {
        None
    } else {
        let len = codec::le_value(data.subrange(at, at + 4));
        let crc = codec::le_value(data.subrange(at + 4, at + 8));
        let end = at + 8 + len;
        if end > data.len() || crc32(data.subrange(at + 8, end)) != crc {
            None
        } else {
            match read_entry(data.subrange(at + 8, end)) {
                Some(entry) => Some((entry, end)),
                None => None,
            }
        }
    }
}

/// The entries framed back to back in `data` from offset `at` on.
pub open spec fn scan_entries(data: Seq<u8>, at: int) -> Seq<EntryView>
    decreases data.len() - at,
{
    match next_frame(data, at) {
        Some((entry, end)) => seq![entry] + scan_entries(data, end),
        None => Seq::empty(),
    }
}

/// Where each of the frames of [`scan_entries`] begins.
pub open spec fn scan_offsets(data: Seq<u8>, at: int) -> Seq<int>
    decreases data.len() - at,
{
    match next_frame(data, at) {
        Some((entry, end)) => seq![at] + scan_offsets(data, end),
        None => Seq::empty(),
    }
}

/// Where the last of the frames of [`scan_entries`] ends: the offset of the
/// first bad byte.
pub open spec fn scan_end(data: Seq<u8>, at: int) -> int
    decreases data.len() - at,
{
    match next_frame(data, at) {
        Some((entry, end)) => scan_end(data, end),
        None => at,
    }
}

/// Appends a payload to `out`, behind the low 32 bits of its length and its
/// checksum.
pub fn put_frame(payload: Vec<u8>, checksum: u32, out: &mut Vec<u8>)
    ensures
        final(out)@ == old(out)@ + codec::le_bytes(payload@.len() % 0x1_0000_0000, 4)
            + codec::le_bytes(checksum as nat, 4) + payload@,
{
    let mut payload = payload;
    let ghost body = payload@;
    let len: u32 = (payload.len() as u64 % 0x1_0000_0000) as u32;
    let mut head = codec::u32_to_le(len);
    let mut crc = codec::u32_to_le(checksum);
    out.append(&mut head);
    out.append(&mut crc);
    out.append(&mut payload);
    assert(out@ =~= old(out)@ + codec::le_bytes(body.len() % 0x1_0000_0000, 4) + codec::le_bytes(
        checksum as nat,
        4,
    ) + body);
}

/// Reads the entry of a frame, provided that the checksum which the frame
/// states is the one that its payload has.
pub fn checked_entry(payload: &[u8], stated: u32, actual: u32) -> (r: Option<LogEntry>)
    ensures
        match r {
            Some(entry) => stated == actual && read_entry(payload@) == Some(entry@),
            None => stated != actual || read_entry(payload@) is None,
        },
{
    if actual != stated {
        return None;
    }
    match decode_entry(payload) {
        Ok(entry) => Some(entry),
        Err(_) => None,
    }
}

/// Appends the frame of an entry to `out`.
pub fn frame(entry: &LogEntry, out: &mut Vec<u8>)
    ensures
        final(out)@ == old(out)@ + frame_bytes(entry@),
{
    let payload = encode_entry(entry);
    let crc = checksum(payload.as_slice());
    put_frame(payload, crc, out);
    assert(out@ =~= old(out)@ + frame_bytes(entry@));
}

/// Decodes entries until one fails to parse, returning them with their byte
/// offsets and the offset of the first bad byte.
pub fn parse(data: &[u8]) -> (r: (Vec<LogEntry>, Vec<u64>, usize))
    ensures
        entry_views(r.0@) == scan_entries(data@, 0),
        r.1@.len() == scan_offsets(data@, 0).len(),
        forall|i: int| 0 <= i < r.1@.len() ==> #[trigger] r.1@[i] == scan_offsets(data@, 0)[i],
        r.2 == scan_end(data@, 0),
        r.2 <= data@.len(),
        r.1@.len() == r.0@.len(),
{
    let mut entries: Vec<LogEntry> = Vec::new();
    let mut offsets: Vec<u64> = Vec::new();
    let mut offset: usize = 0;
    proof {
        assert(entry_views(entries@) + scan_entries(data@, 0) =~= scan_entries(data@, 0));
    }
    loop
        invariant
            offset <= data@.len(),
            offsets@.len() == entries@.len(),
            scan_entries(data@, 0) == entry_views(entries@) + scan_entries(data@, offset as int),
            scan_offsets(data@, 0).len() == offsets@.len() + scan_offsets(
                data@,
                offset as int,
            ).len(),
            forall|i: int|
                0 <= i < offsets@.len() ==> #[trigger] offsets@[i] == scan_offsets(data@, 0)[i],
            forall|i: int|
                0 <= i < scan_offsets(data@, offset as int).len() ==> scan_offsets(
                    data@,
                    0,
                )[offsets@.len() + i] == #[trigger] scan_offsets(data@, offset as int)[i],
            scan_end(data@, 0) == scan_end(data@, offset as int),
        ensures
            next_frame(data@, offset as int) is None,
        decreases data@.len() - offset,
    {
        if data.len() - offset < HEADER_LEN {
            break;
        }
        let start: usize = offset + HEADER_LEN;
        let header = slice_subrange(data, offset, start);
        let len = codec::u32_from_le(slice_subrange(header, 0, 4));
        let crc = codec::u32_from_le(slice_subrange(header, 4, 8));
        proof {
            assert(header@.subrange(0, 4).take(4) =~= data@.subrange(
                offset as int,
                offset + 4,
            ));
            assert(header@.subrange(4, 8).take(4) =~= data@.subrange(
                offset + 4,
                offset + 8,
            ));
        }
        if len as u64 > (data.len() - start) as u64 {
            break;
        }
        let end: usize = start + len as usize;
        let payload = slice_subrange(data, start, end);
        let entry = match checked_entry(payload, crc, checksum(payload)) {
            Some(entry) => entry,
            None => {
                break;
            },
        };
        let ghost view = entry@;
        let ghost before = entries@;
        entries.push(entry);
        offsets.push(offset as u64);
        proof {
            assert(next_frame(data@, offset as int) == Some((view, end as int)));
            assert(entry_views(entries@) =~= entry_views(before).push(view));
            assert(entry_views(before) + (seq![view] + scan_entries(data@, end as int))
                =~= entry_views(entries@) + scan_entries(data@, end as int));
            let here = scan_offsets(data@, offset as int);
            let rest = scan_offsets(data@, end as int);
            assert(here == seq![offset as int] + rest);
            assert(here[0] == offset as int);
            assert forall|i: int| 0 <= i < rest.len() implies scan_offsets(
                data@,
                0,
            )[offsets@.len() + i] == #[trigger] rest[i] by {
                assert(here[i + 1] == rest[i]);
            }
        }
        offset = end;
    }
    proof {
        assert(scan_entries(data@, offset as int) =~= Seq::empty());
        assert(entry_views(entries@) + Seq::<EntryView>::empty() =~= entry_views(entries@));
    }
    (entries, offsets, offset)
}

// ------------------------------------------------------------------------- log

/// A position in the file, on a counter of 64 bits.
pub open spec fn file_position(n: int) -> u64 {
    (n % 0x1_0000_0000_0000_0000) as u64
}

/// Offsets as numbers.
pub open spec fn positions(offsets: Seq<u64>) -> Seq<int> {
    Seq::new(offsets.len(), |i: int| offsets[i] as int)
}

/// What a [`RaftLog`] holds.
pub struct LogView {
    pub entries: Seq<EntryView>,
    /// Where the frame of each entry begins in the file.
    pub offsets: Seq<u64>,
    /// The length of the file.
    pub bytes: u64,
}

/// What an [`Append`] holds.
pub struct AppendView {
    pub entries: Seq<EntryView>,
    pub offsets: Seq<u64>,
    pub end: u64,
    pub bytes: Seq<u8>,
}

impl LogView {
    pub open spec fn last_index(self) -> u64 {
        if self.entries.len() == 0 {
            0
        } else {
            self.entries.last().index
        }
    }

    pub open spec fn last_term(self) -> u64 {
        if self.entries.len() == 0 {
            0
        } else {
            self.entries.last().term
        }
    }

    pub open spec fn entry(self, index: u64) -> Option<EntryView> {
        if 1 <= index <= self.entries.len() {
            Some(self.entries[index - 1])
        } else {
            None
        }
    }

    pub open spec fn term_at(self, index: u64) -> Option<u64> {
        if index == 0 {
            Some(0)
        } else if index <= self.entries.len() {
            Some(self.entries[index - 1].term)
        } else {
            None
        }
    }

    /// At most `limit` entries from the one at `index` on.
    pub open spec fn entries_from(self, index: u64, limit: int) -> Seq<EntryView> {
        if index == 0 || index > self.last_index() {
            Seq::empty()
        } else if limit < self.entries.len() - (index - 1) {
            self.entries.subrange(index - 1, index - 1 + limit)
        } else {
            self.entries.skip(index - 1)
        }
    }

    /// What has to reach the file for `new` entries to be appended.
    pub open spec fn plan(self, new: Seq<EntryView>) -> AppendView {
        AppendView {
            entries: new,
            offsets: Seq::new(
                new.len(),
                |i: int| file_position(self.bytes + frames(new.take(i)).len()),
            ),
            end: file_position(self.bytes + frames(new).len()),
            bytes: frames(new),
        }
    }

    /// The log once a planned append has reached the file.
    pub open spec fn appended(self, write: AppendView) -> LogView {
        LogView {
            entries: self.entries + write.entries,
            offsets: self.offsets + write.offsets,
            bytes: write.end,
        }
    }

    /// The log with `new` entries at its end.
    pub open spec fn append(self, new: Seq<EntryView>) -> LogView {
        self.appended(self.plan(new))
    }

    /// Whether there is a frame to cut at when everything after `index` goes.
    pub open spec fn can_truncate(self, index: u64) -> bool {
        index < self.last_index() ==> index < self.entries.len()
    }

    /// The length that the file has to be cut to for everything after `index`
    /// to go, or nothing where nothing comes after it.
    pub open spec fn cut(self, index: u64) -> Option<u64> {
        if index >= self.last_index() {
            None
        } else {
            Some(self.offsets[index as int])
        }
    }

    /// The log without anything after `index`.
    pub open spec fn truncate(self, index: u64) -> LogView {
        match self.cut(index) {
            None => self,
            Some(bytes) => LogView {
                entries: self.entries.take(index as int),
                offsets: self.offsets.take(index as int),
                bytes,
            },
        }
    }

    /// Whether entries sit at the positions that they say.
    pub open spec fn contiguous(self) -> bool {
        forall|i: int| 0 <= i < self.entries.len() ==> #[trigger] self.entries[i].index == i + 1
    }

    /// Whether a file that holds `disk` is the one this log describes.
    #[verifier::opaque]
    pub open spec fn describes(self, disk: Seq<u8>) -> bool {
        &&& self.entries == scan_entries(disk, 0)
        &&& positions(self.offsets) == scan_offsets(disk, 0)
        &&& scan_end(disk, 0) == disk.len()
        &&& self.bytes == disk.len()
    }
}

/// The durable replicated log.
///
/// Entries are held in memory for the protocol to compare and stream, and
/// mirrored to an append-only file. Index is 1-based; index 0 means "empty",
/// which is what `prev_log_index` carries for the very first entry.
#[derive(Debug)]
pub struct RaftLog {
    entries: Vec<LogEntry>,
    /// Byte offset where each entry's frame begins, so a truncation can shrink
    /// the file without rewriting it.
    offsets: Vec<u64>,
    bytes: u64,
}

/// Entries on their way into the file.
#[derive(Debug)]
pub struct Append {
    entries: Vec<LogEntry>,
    offsets: Vec<u64>,
    end: u64,
    bytes: Vec<u8>,
}

impl View for RaftLog {
    type V = LogView;

    closed spec fn view(&self) -> LogView {
        LogView {
            entries: entry_views(self.entries@),
            offsets: self.offsets@,
            bytes: self.bytes,
        }
    }
}

impl View for Append {
    type V = AppendView;

    closed spec fn view(&self) -> AppendView {
        AppendView {
            entries: entry_views(self.entries@),
            offsets: self.offsets@,
            end: self.end,
            bytes: self.bytes@,
        }
    }
}

impl Append {
    /// The bytes to write at the end of the file, in one write and one flush
    /// however many entries they carry.
    pub fn bytes(&self) -> (r: &[u8])
        ensures
            r@ == self@.bytes,
    {
        self.bytes.as_slice()
    }
}

impl RaftLog {
    /// Every entry has an offset.
    pub closed spec fn wf(&self) -> bool {
        self.offsets@.len() == self.entries@.len()
    }

    /// Loads the log from what its file holds. A torn trailing record, the
    /// ordinary result of crashing mid-append, is discarded; the file has to be
    /// cut to [`RaftLog::byte_len`] for it to be gone.
    pub fn open(data: &[u8]) -> (r: Self)
        ensures
            r.wf(),
            r@.entries == scan_entries(data@, 0),
            positions(r@.offsets) == scan_offsets(data@, 0),
            r@.bytes == scan_end(data@, 0),
            r@.bytes <= data@.len(),
    {
        let (entries, offsets, valid_len) = parse(data);
        let r = RaftLog { entries, offsets, bytes: valid_len as u64 };
        assert(positions(r@.offsets) =~= scan_offsets(data@, 0));
        r
    }

    /// The length of the file, as far as it holds whole frames.
    pub fn byte_len(&self) -> (r: u64)
        ensures
            r == self@.bytes,
    {
        self.bytes
    }

    /// How many entries there are.
    pub fn len(&self) -> (r: usize)
        ensures
            r == self@.entries.len(),
    {
        self.entries.len()
    }

    /// Index of the last entry, or 0 for an empty log.
    pub fn last_index(&self) -> (r: u64)
        ensures
            r == self@.last_index(),
    {
        if self.entries.len() == 0 {
            0
        } else {
            self.entries[self.entries.len() - 1].index
        }
    }

    /// Term of the last entry, or 0 for an empty log.
    pub fn last_term(&self) -> (r: u64)
        ensures
            r == self@.last_term(),
    {
        if self.entries.len() == 0 {
            0
        } else {
            self.entries[self.entries.len() - 1].term
        }
    }

    /// Term of the entry at `index`, or 0 for index 0 (the empty-log sentinel).
    /// `None` means the index is past the end and there is nothing to compare.
    pub fn term_at(&self, index: u64) -> (r: Option<u64>)
        ensures
            r == self@.term_at(index),
    {
        if index == 0 {
            Some(0)
        } else if index - 1 < self.entries.len() as u64 {
            Some(self.entries[(index - 1) as usize].term)
        } else {
            None
        }
    }

    /// The entry at `index`.
    pub fn entry(&self, index: u64) -> (r: Option<&LogEntry>)
        ensures
            match r {
                Some(entry) => self@.entry(index) == Some(entry@),
                None => self@.entry(index) is None,
            },
    {
        if index == 0 {
            None
        } else if index - 1 < self.entries.len() as u64 {
            Some(&self.entries[(index - 1) as usize])
        } else {
            None
        }
    }

    /// Entries from `index` onward, capped at `limit`, for streaming to a
    /// follower that is behind.
    pub fn entries_from(&self, index: u64, limit: usize) -> (r: Vec<LogEntry>)
        requires
            1 <= index <= self@.last_index() ==> index - 1 <= self@.entries.len(),
        ensures
            entry_views(r@) == self@.entries_from(index, limit as int),
    {
        let mut out: Vec<LogEntry> = Vec::new();
        if index == 0 || index > self.last_index() {
            assert(entry_views(out@) =~= Seq::empty());
            return out;
        }
        let start: usize = (index - 1) as usize;
        let end: usize = if limit < self.entries.len() - start {
            start + limit
        } else {
            self.entries.len()
        };
        let mut i: usize = start;
        while i < end
            invariant
                start <= i <= end <= self.entries@.len(),
                entry_views(out@) == self@.entries.subrange(start as int, i as int),
            decreases end - i,
        {
            let entry = self.entries[i].clone();
            let ghost before = entry_views(out@);
            out.push(entry);
            assert(entry_views(out@) =~= before.push(entry@));
            i = i + 1;
            assert(entry_views(out@) =~= self@.entries.subrange(start as int, i as int));
        }
        assert(self@.entries.subrange(start as int, self.entries@.len() as int)
            =~= self@.entries.skip(start as int));
        out
    }

    /// Works out what has to be written for `new` entries to be appended.
    /// Nothing changes until [`RaftLog::appended`] is told that it was written.
    pub fn append(&self, new: &[LogEntry]) -> (r: Append)
        ensures
            r@ == self@.plan(entry_views(new@)),
    {
        let mut bytes: Vec<u8> = Vec::new();
        let mut offsets: Vec<u64> = Vec::new();
        let mut entries: Vec<LogEntry> = Vec::new();
        let mut at: u64 = self.bytes;
        let mut i: usize = 0;
        let ghost views = entry_views(new@);
        proof {
            assert(views.take(0) =~= Seq::empty());
            assert(entry_views(entries@) =~= views.take(0));
        }
        while i < new.len()
            invariant
                views == entry_views(new@),
                i <= new@.len(),
                entry_views(entries@) == views.take(i as int),
                bytes@ == frames(views.take(i as int)),
                at == file_position(self.bytes + frames(views.take(i as int)).len()),
                offsets@.len() == i,
                forall|j: int|
                    0 <= j < i ==> #[trigger] offsets@[j] == file_position(
                        self.bytes + frames(views.take(j)).len(),
                    ),
            decreases new@.len() - i,
        {
            let before: usize = bytes.len();
            let ghost framed = bytes@;
            offsets.push(at);
            frame(&new[i], &mut bytes);
            at = at.wrapping_add((bytes.len() - before) as u64);
            let entry = new[i].clone();
            proof {
                assert(views.take(i + 1).drop_last() =~= views.take(i as int));
                assert(entry_views(entries@.push(entry)) =~= views.take(i + 1));
                assert(bytes@ == frames(views.take(i + 1)));
            }
            entries.push(entry);
            i = i + 1;
        }
        assert(views.take(i as int) =~= views);
        let r = Append { entries, offsets, end: at, bytes };
        assert(r@.offsets =~= self@.plan(views).offsets);
        r
    }

    /// Takes in entries that have been written to the file.
    pub fn appended(&mut self, write: Append)
        requires
            old(self).wf(),
            write@.offsets.len() == write@.entries.len(),
        ensures
            final(self).wf(),
            final(self)@ == old(self)@.appended(write@),
    {
        let Append { mut entries, mut offsets, end, bytes: _ } = write;
        let ghost new = entries@;
        self.entries.append(&mut entries);
        self.offsets.append(&mut offsets);
        self.bytes = end;
        proof {
            assert(self@.entries =~= old(self)@.entries + entry_views(new));
        }
    }

    /// Works out the length that the file has to be cut to so that everything
    /// after `index` goes, or `None` where nothing comes after it. Used when a
    /// follower's log diverges from the leader's and the conflicting suffix has
    /// to go. Nothing changes until [`RaftLog::truncated`] is told that it was
    /// cut.
    pub fn truncate_after(&self, index: u64) -> (r: Option<u64>)
        requires
            self.wf(),
            self@.can_truncate(index),
        ensures
            r == self@.cut(index),
    {
        if index >= self.last_index() {
            None
        } else {
            assert(index < self.offsets.len());
            Some(self.offsets[index as usize])
        }
    }

    /// Drops everything after `index`, once it is gone from the file.
    pub fn truncated(&mut self, index: u64)
        requires
            old(self).wf(),
            old(self)@.can_truncate(index),
        ensures
            final(self).wf(),
            final(self)@ == old(self)@.truncate(index),
    {
        if index >= self.last_index() {
            return;
        }
        assert(index < self.offsets.len());
        let keep: usize = index as usize;
        self.bytes = self.offsets[keep];
        self.entries.truncate(keep);
        self.offsets.truncate(keep);
        proof {
            assert(self@.entries =~= old(self)@.entries.take(index as int));
            assert(self@.offsets =~= old(self)@.offsets.take(index as int));
        }
    }
}

/// What an entry says is what stands in it.
pub proof fn law_entries_say_what_stands_in_them(entries: Seq<LogEntry>, i: int)
    requires
        0 <= i < entries.len(),
    ensures
        entry_views(entries).len() == entries.len(),
        entry_views(entries)[i].term == entries[i].term,
        entry_views(entries)[i].index == entries[i].index,
        match entries[i].payload {
            EntryPayload::Noop => entry_views(entries)[i].payload == PayloadView::Noop,
            EntryPayload::Queue(record) => entry_views(entries)[i].payload == PayloadView::Queue(
                record@,
            ),
        },
{
}

} // verus!
