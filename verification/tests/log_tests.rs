use ferroqueue::log::{
    checked_entry, decode_entry, encode_entry, frame, parse, put_frame, EntryPayload, LogEntry, RaftLog, HEADER_LEN,
};
use ferroqueue::state::Record;

/// A log and the file that it is mirrored to.
struct Stored {
    log: RaftLog,
    file: Vec<u8>,
}

impl Stored {
    fn open(file: &[u8]) -> Self {
        let log = RaftLog::open(file);
        let mut file = file.to_vec();
        file.truncate(log.byte_len() as usize);
        Stored { log, file }
    }

    fn append(&mut self, new: &[LogEntry]) {
        let write = self.log.append(new);
        self.file.extend_from_slice(write.bytes());
        self.log.appended(write);
        assert_eq!(self.log.byte_len(), self.file.len() as u64);
    }

    fn truncate_after(&mut self, index: u64) {
        if let Some(len) = self.log.truncate_after(index) {
            self.file.truncate(len as usize);
            self.log.truncated(index);
        }
        assert_eq!(self.log.byte_len(), self.file.len() as u64);
    }
}

fn entry(term: u64, index: u64) -> LogEntry {
    LogEntry {
        term,
        index,
        payload: EntryPayload::Queue(Record::Enqueued {
            job_id: index as u128,
            payload: format!("job-{index}"),
            created_at: index as i64,
        }),
    }
}

#[test]
fn opens_when_the_file_does_not_exist() {
    let stored = Stored::open(&[]);
    assert_eq!(stored.log.last_index(), 0);
    assert_eq!(stored.log.term_at(0), Some(0), "index 0 is the empty-log sentinel");
    assert!(stored.file.is_empty());
}

#[test]
fn reloads_what_it_appended() {
    let mut stored = Stored::open(&[]);
    stored.append(&[entry(1, 1), entry(1, 2), entry(2, 3)]);
    assert_eq!(stored.log.last_index(), 3);
    assert_eq!(stored.log.last_term(), 2);

    let stored = Stored::open(&stored.file);
    assert_eq!(stored.log.last_index(), 3);
    assert_eq!(stored.log.term_at(2), Some(1));
    assert_eq!(stored.log.term_at(3), Some(2));
    assert_eq!(stored.log.term_at(4), None, "past the end has no term to compare");
}

#[test]
fn truncate_shrinks_memory_and_file_and_survives_reload() {
    let mut stored = Stored::open(&[]);
    stored.append(&[entry(1, 1), entry(1, 2), entry(1, 3), entry(1, 4)]);
    let full_len = stored.file.len();

    stored.truncate_after(2);
    assert_eq!(stored.log.last_index(), 2);
    assert!(stored.file.len() < full_len);

    // Appending after a truncation must land at index 3 again.
    stored.append(&[entry(5, 3)]);
    assert_eq!(stored.log.term_at(3), Some(5));

    let stored = Stored::open(&stored.file);
    assert_eq!(stored.log.last_index(), 3);
    assert_eq!(stored.log.term_at(3), Some(5), "the overwritten entry is what reloads");
}

#[test]
fn discards_a_torn_trailing_record() {
    let mut stored = Stored::open(&[]);
    stored.append(&[entry(1, 1)]);
    let intact_len = stored.file.len();

    let mut partial = Vec::new();
    frame(&entry(1, 2), &mut partial);
    partial.truncate(partial.len() - 3);
    stored.file.extend_from_slice(&partial);

    let stored = Stored::open(&stored.file);
    assert_eq!(stored.log.last_index(), 1, "the torn entry must not load");
    assert_eq!(stored.file.len(), intact_len, "the torn bytes must be truncated away");
}

#[test]
fn every_proper_part_of_a_record_is_discarded() {
    let mut stored = Stored::open(&[]);
    stored.append(&[entry(1, 1)]);
    let mut framed = Vec::new();
    frame(&entry(1, 2), &mut framed);
    for torn in 0..framed.len() {
        let mut file = stored.file.clone();
        file.extend_from_slice(&framed[..torn]);
        let reopened = Stored::open(&file);
        assert_eq!(reopened.log.last_index(), 1);
        assert_eq!(reopened.file, stored.file);
    }
}

#[test]
fn a_flipped_bit_stops_the_scan() {
    let mut stored = Stored::open(&[]);
    stored.append(&[entry(1, 1), entry(1, 2)]);
    let first_len = {
        let mut framed = Vec::new();
        frame(&entry(1, 1), &mut framed);
        framed.len()
    };
    let mut file = stored.file.clone();
    file[first_len + HEADER_LEN] ^= 1;
    let (entries, offsets, end) = parse(&file);
    assert_eq!(entries, vec![entry(1, 1)]);
    assert_eq!(offsets, vec![0]);
    assert_eq!(end, first_len);
}

#[test]
fn frames_hold_length_checksum_and_payload() {
    let noop = LogEntry { term: 1, index: 2, payload: EntryPayload::Noop };
    let payload = encode_entry(&noop);
    assert_eq!(payload, vec![1, 2, 0]);

    let mut framed = vec![9];
    frame(&noop, &mut framed);
    assert_eq!(&framed[..1], &[9]);
    assert_eq!(&framed[1..5], &[3, 0, 0, 0]);
    assert_eq!(&framed[5..9], &crc32fast::hash(&payload).to_le_bytes());
    assert_eq!(&framed[9..], &payload[..]);
    // The published check value of the checksum.
    assert_eq!(crc32fast::hash(b"123456789"), 0xCBF4_3926);
}

#[test]
fn entries_have_the_expected_binary_form() {
    let leased = LogEntry {
        term: 300,
        index: 7,
        payload: EntryPayload::Queue(Record::Leased {
            job_id: 1,
            delivery_id: 250,
            visible_at: -1,
        }),
    };
    assert_eq!(encode_entry(&leased), vec![251, 44, 1, 7, 1, 1, 1, 250, 1]);

    let enqueued = LogEntry {
        term: 1,
        index: 1,
        payload: EntryPayload::Queue(Record::Enqueued {
            job_id: u128::MAX,
            payload: "h\u{e9}".to_string(),
            created_at: 1,
        }),
    };
    let mut expected = vec![1, 1, 1, 0, 254];
    expected.extend_from_slice(&[255; 16]);
    expected.extend_from_slice(&[3, b'h', 0xc3, 0xa9, 2]);
    assert_eq!(encode_entry(&enqueued), expected);
}

#[test]
fn every_record_reads_back() {
    let records = vec![
        Record::Enqueued { job_id: 1 << 70, payload: "p".to_string(), created_at: i64::MIN },
        Record::Leased { job_id: 2, delivery_id: 3, visible_at: i64::MAX },
        Record::Acked { job_id: 4, delivery_id: 5 },
        Record::Retried { job_id: 6, delivery_id: 7 },
        Record::DeadLettered { job_id: 8, delivery_id: 9 },
        Record::Redriven { job_id: 10 },
    ];
    for record in records {
        let entry = LogEntry { term: u64::MAX, index: 70_000, payload: EntryPayload::Queue(record) };
        let mut bytes = encode_entry(&entry);
        assert_eq!(decode_entry(&bytes), Ok(entry.clone()));
        bytes.push(0);
        assert_eq!(decode_entry(&bytes), Ok(entry.clone()), "bytes past the end are ignored");
        bytes.truncate(bytes.len() - 2);
        assert!(decode_entry(&bytes).is_err());
    }
}

#[test]
fn what_is_no_entry_is_refused() {
    assert!(decode_entry(&[]).is_err());
    assert!(decode_entry(&[1, 1, 2]).is_err(), "there is no such payload");
    assert!(decode_entry(&[1, 1, 1, 6]).is_err(), "there is no such record");
    assert!(decode_entry(&[1, 1, 1, 0, 1, 2, 0xc3, 0x28, 0]).is_err(), "not text");
}

#[test]
fn streams_a_bounded_number_of_entries() {
    let mut stored = Stored::open(&[]);
    let all: Vec<LogEntry> = (1..=5).map(|i| entry(1, i)).collect();
    stored.append(&all);
    assert_eq!(stored.log.entries_from(0, 10), vec![]);
    assert_eq!(stored.log.entries_from(6, 10), vec![]);
    assert_eq!(stored.log.entries_from(2, 2), vec![entry(1, 2), entry(1, 3)]);
    assert_eq!(stored.log.entries_from(4, 10), vec![entry(1, 4), entry(1, 5)]);
    assert_eq!(stored.log.entries_from(4, 0), vec![]);
    assert_eq!(stored.log.entry(5), Some(&entry(1, 5)));
    assert_eq!(stored.log.entry(0), None);
    assert_eq!(stored.log.entry(6), None);
    assert_eq!(stored.log.len(), 5);
}

#[test]
fn truncating_past_the_end_changes_nothing() {
    let mut stored = Stored::open(&[]);
    stored.append(&[entry(1, 1), entry(1, 2)]);
    let file = stored.file.clone();
    stored.truncate_after(2);
    stored.truncate_after(9);
    assert_eq!(stored.file, file);
    stored.truncate_after(0);
    assert_eq!(stored.file.len(), 0);
    assert_eq!(stored.log.last_index(), 0);
}

#[test]
fn a_frame_counts_only_with_its_checksum() {
    let mut out = vec![9];
    put_frame(vec![1, 2, 0], 0x0403_0201, &mut out);
    assert_eq!(out, vec![9, 3, 0, 0, 0, 1, 2, 3, 4, 1, 2, 0]);
    let noop = LogEntry { term: 1, index: 2, payload: EntryPayload::Noop };
    assert_eq!(checked_entry(&[1, 2, 0], 7, 7), Some(noop));
    assert_eq!(checked_entry(&[1, 2, 0], 7, 8), None);
    assert_eq!(checked_entry(&[1, 2], 7, 7), None);
}

#[test]
fn two_truncations_come_to_the_deeper_one() {
    let all = [entry(1, 1), entry(1, 2), entry(2, 3), entry(2, 4), entry(3, 5)];
    for (a, b) in [(4, 2), (2, 4), (3, 3), (0, 2), (9, 1)] {
        let mut twice = Stored::open(&[]);
        twice.append(&all);
        twice.truncate_after(a);
        twice.truncate_after(b);

        let kept = a.min(b) as usize;
        let mut once = Stored::open(&[]);
        once.append(&all);
        once.truncate_after(a.min(b));
        assert_eq!(twice.file, once.file);
        assert_eq!(twice.log.last_index(), kept as u64);

        // What is left of the file is the frames of what is left of the log.
        let mut fresh = Stored::open(&[]);
        fresh.append(&all[..kept]);
        assert_eq!(twice.file, fresh.file);
        let reloaded = Stored::open(&twice.file);
        assert_eq!(reloaded.log.entries_from(1, 10).len(), kept);
    }
}
