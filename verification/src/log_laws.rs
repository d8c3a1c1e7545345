//! What the log's file gives back of what was written to it.
use crate::codec;
use crate::log;
use crate::log::{EntryView, LogView, PayloadView};
use crate::state::RecordView;
use vstd::prelude::*;

verus! {

/// Whether the frame of an entry states its own length: the binary form stays
/// below 4 GiB.
pub open spec fn frameable(entry: EntryView) -> bool {
    log::writable(entry) && log::entry_bytes(entry).len() < 0x1_0000_0000
}

// ---------------------------------------------------------- scanning a file

/// A frame found in some bytes is found there whatever follows them.
proof fn lemma_next_frame_extend(data: Seq<u8>, more: Seq<u8>, at: int)
    requires
        0 <= at,
        log::next_frame(data, at) is Some,
    ensures
        log::next_frame(data + more, at) == log::next_frame(data, at),
{
    let (entry, end) = log::next_frame(data, at).unwrap();
    assert((data + more).subrange(at, at + 4) =~= data.subrange(at, at + 4));
    assert((data + more).subrange(at + 4, at + 8) =~= data.subrange(at + 4, at + 8));
    assert((data + more).subrange(at + 8, end) =~= data.subrange(at + 8, end));
}

/// A frame that ends before a cut is found in what is left.
proof fn lemma_next_frame_cut(data: Seq<u8>, at: int, cut: int)
    requires
        0 <= at,
        log::next_frame(data, at) is Some,
        log::next_frame(data, at).unwrap().1 <= cut <= data.len(),
    ensures
        log::next_frame(data.take(cut), at) == log::next_frame(data, at),
{
    let (entry, end) = log::next_frame(data, at).unwrap();
    assert(data.take(cut).subrange(at, at + 4) =~= data.subrange(at, at + 4));
    assert(data.take(cut).subrange(at + 4, at + 8) =~= data.subrange(at + 4, at + 8));
    assert(data.take(cut).subrange(at + 8, end) =~= data.subrange(at + 8, end));
}

/// The bounds of a scan.
proof fn lemma_scan_bounds(data: Seq<u8>, at: int)
    requires
        0 <= at <= data.len(),
    ensures
        at <= log::scan_end(data, at) <= data.len(),
        log::scan_offsets(data, at).len() == log::scan_entries(data, at).len(),
        forall|i: int|
            0 <= i < log::scan_offsets(data, at).len() ==> at <= #[trigger] log::scan_offsets(
                data,
                at,
            )[i] < log::scan_end(data, at),
    decreases data.len() - at,
{
    if let Some((entry, end)) = log::next_frame(data, at) {
        lemma_scan_bounds(data, end);
        let rest = log::scan_offsets(data, end);
        assert forall|i: int| 0 <= i < log::scan_offsets(data, at).len() implies at
            <= #[trigger] log::scan_offsets(data, at)[i] < log::scan_end(data, at) by {
            if i > 0 {
                assert(log::scan_offsets(data, at)[i] == rest[i - 1]);
            }
        }
    }
}

/// Scanning bytes that were whole frames, with more behind them, finds those
/// frames and goes on behind them.
proof fn lemma_scan_extend(data: Seq<u8>, more: Seq<u8>, at: int)
    requires
        0 <= at <= data.len(),
        log::scan_end(data, at) == data.len(),
    ensures
        log::scan_entries(data + more, at) == log::scan_entries(data, at) + log::scan_entries(
            data + more,
            data.len() as int,
        ),
        log::scan_offsets(data + more, at) == log::scan_offsets(data, at) + log::scan_offsets(
            data + more,
            data.len() as int,
        ),
        log::scan_end(data + more, at) == log::scan_end(data + more, data.len() as int),
    decreases data.len() - at,
{
    let all = data + more;
    if let Some((entry, end)) = log::next_frame(data, at) {
        lemma_next_frame_extend(data, more, at);
        lemma_scan_extend(data, more, end);
        assert(log::scan_entries(all, at) =~= log::scan_entries(data, at) + log::scan_entries(
            all,
            data.len() as int,
        ));
        assert(log::scan_offsets(all, at) =~= log::scan_offsets(data, at) + log::scan_offsets(
            all,
            data.len() as int,
        ));
    } else {
        assert(at == data.len());
        assert(log::scan_entries(data, at) + log::scan_entries(all, at) =~= log::scan_entries(
            all,
            at,
        ));
        assert(log::scan_offsets(data, at) + log::scan_offsets(all, at) =~= log::scan_offsets(
            all,
            at,
        ));
    }
}

/// Scanning bytes cut at the start of a frame finds the frames before it.
proof fn lemma_scan_cut(data: Seq<u8>, at: int, keep: int)
    requires
        0 <= at <= data.len(),
        0 <= keep <= log::scan_offsets(data, at).len(),
    ensures
        ({
            let cut = if keep < log::scan_offsets(data, at).len() {
                log::scan_offsets(data, at)[keep]
            } else {
                log::scan_end(data, at)
            };
            &&& at <= cut <= data.len()
            &&& log::scan_entries(data.take(cut), at) == log::scan_entries(data, at).take(keep)
            &&& log::scan_offsets(data.take(cut), at) == log::scan_offsets(data, at).take(keep)
            &&& log::scan_end(data.take(cut), at) == cut
        }),
    decreases data.len() - at,
{
    lemma_scan_bounds(data, at);
    let offsets = log::scan_offsets(data, at);
    let entries = log::scan_entries(data, at);
    let cut = if keep < offsets.len() {
        offsets[keep]
    } else {
        log::scan_end(data, at)
    };
    if keep == 0 {
        assert(cut == at);
        assert(log::next_frame(data.take(cut), at) is None);
        assert(entries.take(0) =~= Seq::empty());
        assert(offsets.take(0) =~= Seq::empty());
    } else {
        let (entry, end) = log::next_frame(data, at).unwrap();
        let rest = log::scan_offsets(data, end);
        assert(offsets =~= seq![at] + rest);
        lemma_scan_cut(data, end, keep - 1);
        lemma_next_frame_cut(data, at, cut);
        assert(entries.take(keep) =~= seq![entry] + log::scan_entries(data, end).take(keep - 1));
        assert(offsets.take(keep) =~= seq![at] + rest.take(keep - 1));
    }
}

/// The frame of an entry is found where it was written.
proof fn lemma_next_frame_of_frame(before: Seq<u8>, entry: EntryView)
    requires
        frameable(entry),
    ensures
        log::next_frame(before + log::frame_bytes(entry), before.len() as int) == Some(
            (entry, (before + log::frame_bytes(entry)).len() as int),
        ),
{
    let payload = log::entry_bytes(entry);
    let data = before + log::frame_bytes(entry);
    let at = before.len() as int;
    let len = payload.len();
    let crc = log::crc32(payload) as nat;
    codec::lemma_le_bytes_len(len, 4);
    codec::lemma_le_bytes_len(crc, 4);
    codec::lemma_u32_fits(len);
    codec::lemma_u32_fits(crc);
    codec::lemma_le_value_of_le_bytes(len, 4);
    codec::lemma_le_value_of_le_bytes(crc, 4);
    assert(data.subrange(at, at + 4) =~= codec::le_bytes(len, 4));
    assert(data.subrange(at + 4, at + 8) =~= codec::le_bytes(crc, 4));
    assert(data.subrange(at + 8, at + 8 + len) =~= payload);
    log::law_entry_reads_back(entry);
}

// --------------------------------------------------------------------- laws

/// A log loaded from any bytes describes the file that holds them once it is
/// cut to the length that the log states.
pub proof fn law_open_describes_the_valid_prefix(data: Seq<u8>, log: LogView)
    requires
        log.entries == log::scan_entries(data, 0),
        log::positions(log.offsets) == log::scan_offsets(data, 0),
        log.bytes == log::scan_end(data, 0),
    ensures
        log.bytes <= data.len(),
        log.describes(data.take(log.bytes as int)),
{
    reveal(LogView::describes);
    lemma_scan_bounds(data, 0);
    lemma_scan_cut(data, 0, log::scan_offsets(data, 0).len() as int);
    let n = log::scan_offsets(data, 0).len() as int;
    assert(log::scan_offsets(data, 0).take(n) =~= log::scan_offsets(data, 0));
    assert(log::scan_entries(data, 0).take(n) =~= log::scan_entries(data, 0));
}

/// Two logs that describe the same file are the same log: what a reload gives
/// is decided by the file.
pub proof fn law_reload_is_decided_by_the_file(a: LogView, b: LogView, disk: Seq<u8>)
    requires
        a.describes(disk),
        b.describes(disk),
    ensures
        a == b,
{
    reveal(LogView::describes);
    assert(log::positions(a.offsets).len() == log::positions(b.offsets).len());
    assert forall|i: int| 0 <= i < a.offsets.len() implies a.offsets[i] == b.offsets[i] by {
        assert(log::positions(a.offsets)[i] == log::positions(b.offsets)[i]);
    }
    assert(a.offsets =~= b.offsets);
}

proof fn lemma_append_one(log: LogView, disk: Seq<u8>, entry: EntryView)
    requires
        log.describes(disk),
        frameable(entry),
        disk.len() + log::frame_bytes(entry).len() <= u64::MAX,
    ensures
        log.append(seq![entry]).describes(disk + log::frame_bytes(entry)),
        log::frames(seq![entry]) == log::frame_bytes(entry),
{
    reveal(LogView::describes);
    let framed = log::frame_bytes(entry);
    let all = disk + framed;
    let new = seq![entry];
    reveal_with_fuel(log::frames, 2);
    assert(new.drop_last() =~= Seq::empty());
    assert(log::frames(new) =~= framed);
    assert(new.take(0) =~= Seq::empty());
    lemma_scan_extend(disk, framed, 0);
    lemma_next_frame_of_frame(disk, entry);
    let at = disk.len() as int;
    assert(log::scan_entries(all, all.len() as int) =~= Seq::empty());
    assert(log::scan_offsets(all, all.len() as int) =~= Seq::empty());
    assert(log::scan_entries(all, at) =~= seq![entry]);
    assert(log::scan_offsets(all, at) =~= seq![at]);
    assert(log::scan_end(all, all.len() as int) == all.len());
    assert(log::scan_end(all, at) == all.len());
    let after = log.append(new);
    assert(log::positions(after.offsets) =~= log::positions(log.offsets) + seq![at]);
    assert(after.entries =~= log::scan_entries(all, 0));
}

/// Appending all of some entries is appending all but the last, and then that.
proof fn lemma_append_last(log: LogView, new: Seq<EntryView>)
    requires
        new.len() > 0,
        log.bytes + log::frames(new).len() <= u64::MAX,
    ensures
        log.append(new.drop_last()).append(seq![new.last()]) == log.append(new),
{
    let most = new.drop_last();
    let last = new.last();
    let mid = log.append(most);
    let one = seq![last];
    reveal_with_fuel(log::frames, 2);
    assert(one.drop_last() =~= Seq::empty());
    assert(one.take(0) =~= Seq::empty());
    assert(log::frames(one) =~= log::frame_bytes(last));
    assert(mid.append(one).entries =~= log.append(new).entries);
    let a = mid.append(one).offsets;
    let b = log.append(new).offsets;
    assert forall|i: int| 0 <= i < b.len() implies a[i] == b[i] by {
        let j = i - log.offsets.len();
        if 0 <= j < most.len() {
            assert(new.take(j) =~= most.take(j));
        } else if j == most.len() {
            assert(new.take(j) =~= most);
        }
    }
    assert(a =~= b);
}

/// What an append writes is what a reload gives back: if the log describes its
/// file, then after the planned bytes are written at its end, the log with the
/// entries appended describes the file.
pub proof fn law_reload_gives_back_what_was_appended(
    log: LogView,
    disk: Seq<u8>,
    new: Seq<EntryView>,
)
    requires
        log.describes(disk),
        forall|i: int| 0 <= i < new.len() ==> frameable(#[trigger] new[i]),
        disk.len() + log::frames(new).len() <= u64::MAX,
    ensures
        log.append(new).describes(disk + log.plan(new).bytes),
    decreases new.len(),
{
    assert(log.bytes == disk.len()) by {
        reveal(LogView::describes);
    }
    if new.len() == 0 {
        assert(disk + log::frames(new) =~= disk);
        assert(log.append(new).entries =~= log.entries);
        assert(log.append(new).offsets =~= log.offsets);
        assert(log.append(new) == log);
    } else {
        let most = new.drop_last();
        let last = new.last();
        assert(frameable(new[new.len() - 1]));
        law_reload_gives_back_what_was_appended(log, disk, most);
        let mid = log.append(most);
        lemma_append_one(mid, disk + log::frames(most), last);
        assert(disk + log::frames(most) + log::frame_bytes(last) =~= disk + log::frames(new));
        lemma_append_last(log, new);
    }
}

/// A truncation survives a reload: cutting the file to the length that the log
/// states leaves the file of the truncated log.
pub proof fn law_truncation_survives_reload(log: LogView, disk: Seq<u8>, index: u64)
    requires
        log.describes(disk),
        log.cut(index) is Some,
        log.can_truncate(index),
    ensures
        log.cut(index).unwrap() < disk.len(),
        log.truncate(index).describes(disk.take(log.cut(index).unwrap() as int)),
{
    reveal(LogView::describes);
    let keep = index as int;
    lemma_scan_bounds(disk, 0);
    lemma_scan_cut(disk, 0, keep);
    let cut = log.offsets[keep];
    assert(log::positions(log.offsets)[keep] == cut as int);
    assert(log::positions(log.offsets.take(keep)) =~= log::positions(log.offsets).take(keep));
}

/// A torn trailing record does not load: with any proper part of a further
/// frame behind the file, a reload finds the same entries and stops where the
/// torn bytes begin.
pub proof fn law_torn_record_is_discarded(
    log: LogView,
    disk: Seq<u8>,
    entry: EntryView,
    torn: int,
)
    requires
        log.describes(disk),
        frameable(entry),
        0 <= torn < log::frame_bytes(entry).len(),
    ensures
        ({
            let data = disk + log::frame_bytes(entry).take(torn);
            &&& log::scan_entries(data, 0) == log.entries
            &&& log::scan_offsets(data, 0) == log::positions(log.offsets)
            &&& log::scan_end(data, 0) == disk.len()
        }),
{
    reveal(LogView::describes);
    let framed = log::frame_bytes(entry);
    let part = framed.take(torn);
    let data = disk + part;
    let at = disk.len() as int;
    let payload = log::entry_bytes(entry);
    let len = payload.len();
    lemma_scan_extend(disk, part, 0);
    assert(log::next_frame(data, at) is None) by {
        codec::lemma_le_bytes_len(len, 4);
        codec::lemma_le_bytes_len(log::crc32(payload) as nat, 4);
        codec::lemma_u32_fits(len);
        codec::lemma_le_value_of_le_bytes(len, 4);
        if at + 8 <= data.len() {
            assert(data.subrange(at, at + 4) =~= codec::le_bytes(len, 4));
        }
    }
    assert(log.entries + Seq::<EntryView>::empty() =~= log.entries);
    assert(log::scan_offsets(disk, 0) + Seq::<int>::empty() =~= log::scan_offsets(disk, 0));
}

/// Appending after a truncation lands right behind the entry that was kept.
pub proof fn law_append_after_truncation_takes_the_next_slot(
    log: LogView,
    index: u64,
    entry: EntryView,
)
    requires
        log.contiguous(),
        log.offsets.len() == log.entries.len(),
        index < log.last_index(),
        entry.index == index + 1,
    ensures
        log.truncate(index).last_index() == index,
        log.truncate(index).append(seq![entry]).last_index() == index + 1,
        log.truncate(index).append(seq![entry]).term_at(entry.index) == Some(entry.term),
        log.truncate(index).append(seq![entry]).contiguous(),
{
}

/// Two truncations come to the deeper one, and a truncation keeps all that comes
/// before the cut.
pub proof fn law_truncations_come_to_the_deeper_one(log: LogView, a: u64, b: u64)
    requires
        log.contiguous(),
        log.offsets.len() == log.entries.len(),
    ensures
        log.truncate(a).truncate(b) == log.truncate(
            if a < b {
                a
            } else {
                b
            },
        ),
        log.truncate(a).last_index() == (if a < log.last_index() {
            a
        } else {
            log.last_index()
        }),
        log.truncate(a).contiguous(),
        forall|index: u64| #[trigger]
            log.truncate(a).entry(index) == (if index <= a {
                log.entry(index)
            } else {
                None
            }),
{
    let entries = log.entries;
    assert(entries.len() > 0 ==> entries[entries.len() - 1].index == entries.len());
    let once = log.truncate(a);
    if a < log.last_index() {
        assert(a > 0 ==> once.entries[a - 1] == entries[a - 1]);
        assert(once.last_index() == a);
        if b < a {
            assert(once.entries.take(b as int) =~= entries.take(b as int));
            assert(once.offsets.take(b as int) =~= log.offsets.take(b as int));
        }
    }
}

/// The frames of some entries begin with the frames of the first of them.
proof fn lemma_frames_begin(entries: Seq<EntryView>, keep: int)
    requires
        0 <= keep <= entries.len(),
    ensures
        log::frames(entries.take(keep)).len() <= log::frames(entries).len(),
        log::frames(entries).take(log::frames(entries.take(keep)).len() as int) == log::frames(
            entries.take(keep),
        ),
    decreases entries.len(),
{
    let part = log::frames(entries.take(keep));
    if keep == entries.len() {
        assert(entries.take(keep) =~= entries);
        assert(part.take(part.len() as int) =~= part);
    } else {
        let most = entries.drop_last();
        assert(most.take(keep) =~= entries.take(keep));
        lemma_frames_begin(most, keep);
        assert(log::frames(entries).take(part.len() as int) =~= log::frames(most).take(
            part.len() as int,
        ));
    }
}

/// Whether a file holds the frames of a log's entries and nothing else, and the
/// log knows where each begins and where the last one ends.
pub open spec fn mirrors(log: LogView, disk: Seq<u8>) -> bool {
    &&& disk == log::frames(log.entries)
    &&& log.bytes == disk.len()
    &&& log.offsets.len() == log.entries.len()
    &&& forall|i: int|
        0 <= i < log.offsets.len() ==> #[trigger] log.offsets[i] == log::frames(
            log.entries.take(i),
        ).len()
}

/// The frames of some entries and more are the frames of these and of those.
proof fn lemma_frames_join(a: Seq<EntryView>, b: Seq<EntryView>)
    ensures
        log::frames(a + b) == log::frames(a) + log::frames(b),
    decreases b.len(),
{
    if b.len() == 0 {
        assert(a + b =~= a);
        assert(log::frames(a) + log::frames(b) =~= log::frames(a));
    } else {
        lemma_frames_join(a, b.drop_last());
        assert((a + b).drop_last() =~= a + b.drop_last());
        assert(log::frames(a + b) =~= log::frames(a) + log::frames(b));
    }
}

/// An empty log and an empty file belong together.
pub proof fn law_empty_log_mirrors_an_empty_file(log: LogView)
    requires
        log.entries.len() == 0,
        log.offsets.len() == 0,
        log.bytes == 0,
    ensures
        mirrors(log, Seq::empty()),
{
}

/// An append leaves the file with the frames of the log's entries, those of the
/// new ones at the end, however long they are.
pub proof fn law_append_mirrors(log: LogView, disk: Seq<u8>, new: Seq<EntryView>)
    requires
        mirrors(log, disk),
        disk.len() + log::frames(new).len() <= u64::MAX,
    ensures
        mirrors(log.append(new), disk + log.plan(new).bytes),
{
    let after = log.append(new);
    lemma_frames_join(log.entries, new);
    assert forall|i: int| 0 <= i < after.offsets.len() implies #[trigger] after.offsets[i]
        == log::frames(after.entries.take(i)).len() by {
        let j = i - log.entries.len();
        if j < 0 {
            assert(after.entries.take(i) =~= log.entries.take(i));
            assert(after.offsets[i] == log.offsets[i]);
        } else {
            assert(after.entries.take(i) =~= log.entries + new.take(j));
            lemma_frames_join(log.entries, new.take(j));
            lemma_frames_begin(new, j);
        }
    }
}

/// A truncation keeps the entries up to an index and leaves the file with exactly
/// their frames, however long they are; past the end it changes nothing.
pub proof fn law_truncation_mirrors(log: LogView, disk: Seq<u8>, index: u64)
    requires
        log.contiguous(),
        mirrors(log, disk),
    ensures
        log.cut(index) is Some <==> index < log.last_index(),
        log.cut(index) is None ==> log.truncate(index) == log,
        log.cut(index) matches Some(len) ==> {
            &&& len <= disk.len()
            &&& mirrors(log.truncate(index), disk.take(len as int))
            &&& log.truncate(index).entries == log.entries.take(index as int)
        },
        log.truncate(index).contiguous(),
{
    let entries = log.entries;
    assert(entries.len() > 0 ==> entries[entries.len() - 1].index == entries.len());
    if let Some(len) = log.cut(index) {
        let after = log.truncate(index);
        lemma_frames_begin(entries, index as int);
        assert forall|i: int| 0 <= i < after.offsets.len() implies #[trigger] after.offsets[i]
            == log::frames(after.entries.take(i)).len() by {
            assert(after.offsets[i] == log.offsets[i]);
            assert(after.entries.take(i) =~= entries.take(i));
        }
    }
}

/// A log that was loaded from the frames of its entries knows where they are,
/// provided each frame states its own length.
pub proof fn law_loaded_log_mirrors_its_file(log: LogView, disk: Seq<u8>)
    requires
        log.describes(disk),
        disk == log::frames(log.entries),
        forall|i: int| 0 <= i < log.entries.len() ==> frameable(#[trigger] log.entries[i]),
    ensures
        mirrors(log, disk),
{
    let none = LogView { entries: Seq::empty(), offsets: Seq::empty(), bytes: 0 };
    let empty = Seq::<u8>::empty();
    assert(disk.len() <= u64::MAX && none.describes(empty)) by {
        reveal(LogView::describes);
        assert(log::next_frame(empty, 0) is None);
        assert(log::positions(none.offsets) =~= Seq::empty());
    }
    law_reload_gives_back_what_was_appended(none, empty, log.entries);
    assert(empty + none.plan(log.entries).bytes =~= disk);
    law_reload_is_decided_by_the_file(log, none.append(log.entries), disk);
    law_append_mirrors(none, empty, log.entries);
}

// ------------------------------------------------------------- what a log says

/// An entry is found at its index and nowhere else, the last one where the log
/// says that it ends; before the first entry and after the last there is none, and
/// before the first the term is 0.
pub proof fn law_entry_is_found_at_its_index(log: LogView, index: u64)
    requires
        log.contiguous(),
        log.entries.len() <= u64::MAX,
    ensures
        log.last_index() == log.entries.len(),
        1 <= index <= log.entries.len() ==> {
            &&& log.entry(index) == Some(log.entries[index - 1])
            &&& log.entries[index - 1].index == index
            &&& log.term_at(index) == Some(log.entries[index - 1].term)
        },
        index > log.entries.len() ==> log.entry(index) is None && log.term_at(index) is None,
        log.entry(0) is None,
        log.term_at(0) == Some(0u64),
        log.entries.len() == 0 ==> log.last_term() == 0,
        log.entries.len() > 0 ==> log.last_term() == log.entries[log.entries.len() - 1].term,
{
    if log.entries.len() > 0 {
        assert(log.entries[log.entries.len() - 1].index == log.entries.len());
    }
    if 1 <= index <= log.entries.len() {
        assert(log.entries[index - 1].index == index);
    }
}

/// Entries from an index on are all that follow, in order, or as many of them as
/// were asked for.
pub proof fn law_entries_follow_on_from_an_index(log: LogView, index: u64, limit: int)
    requires
        log.contiguous(),
        log.entries.len() <= u64::MAX,
        limit >= 0,
    ensures
        ({
            let got = log.entries_from(index, limit);
            let rest = log.entries.len() - (index - 1);
            &&& index == 0 || index > log.entries.len() ==> got.len() == 0
            &&& 1 <= index <= log.entries.len() && limit <= rest ==> got.len() == limit
            &&& 1 <= index <= log.entries.len() && limit > rest ==> got.len() == rest
            &&& forall|k: int|
                0 <= k < got.len() ==> #[trigger] got[k] == log.entries[index - 1 + k]
        }),
{
    law_entry_is_found_at_its_index(log, index);
}

/// Appending adds entries at the end, all of them and nothing else; a truncation
/// takes away what comes after an index, all of it and nothing else, and the file
/// is cut where the first entry that goes begins.
pub proof fn law_append_and_truncation_at_the_end(
    log: LogView,
    new: Seq<EntryView>,
    index: u64,
)
    ensures
        log.append(new).entries == log.entries + new,
        log.plan(new).entries == new,
        log.plan(new).bytes == log::frames(new),
        log.bytes + log::frames(new).len() <= u64::MAX ==> log.append(new).bytes == log.bytes
            + log::frames(new).len(),
        index < log.last_index() ==> {
            &&& log.truncate(index).entries == log.entries.take(index as int)
            &&& log.truncate(index).offsets == log.offsets.take(index as int)
            &&& log.truncate(index).bytes == log.offsets[index as int]
            &&& log.cut(index) == Some(log.offsets[index as int])
        },
        index >= log.last_index() ==> log.truncate(index) == log && log.cut(index) is None,
{
}

// ------------------------------------------------------------ what a file says

/// Four bytes with the lowest first.
pub proof fn law_four_bytes_lowest_first(s: Seq<u8>)
    requires
        s.len() == 4,
    ensures
        codec::le_value(s) == s[0] + 256 * s[1] + 65536 * s[2] + 16777216 * s[3],
{
    reveal_with_fuel(codec::le_value, 5);
}

/// A frame is loaded exactly when it is whole: the header states the length of a
/// payload that is there, its checksum is that of the payload, and the payload is
/// an entry. A single byte that was changed in the payload without the checksum
/// coming out the same stops the load there.
pub proof fn law_frame_is_loaded_when_it_is_whole(
    data: Seq<u8>,
    at: int,
    end: int,
    entry: EntryView,
)
    requires
        0 <= at,
    ensures
        log::next_frame(data, at) == Some((entry, end)) <==> {
            &&& at + 8 <= end <= data.len()
            &&& codec::le_value(data.subrange(at, at + 4)) == end - at - 8
            &&& codec::le_value(data.subrange(at + 4, at + 8)) == log::crc32(
                data.subrange(at + 8, end),
            )
            &&& log::read_entry(data.subrange(at + 8, end)) == Some(entry)
        },
{
}

/// A load goes on from frame to frame and ends at the first that is not whole:
/// what comes before it is loaded, in order, each with the place where its frame
/// begins, and nothing after it is.
pub proof fn law_load_ends_at_the_first_frame_that_is_not_whole(data: Seq<u8>, at: int)
    requires
        0 <= at <= data.len(),
    ensures
        match log::next_frame(data, at) {
            Some((entry, end)) => {
                &&& log::scan_entries(data, at).len() == log::scan_entries(data, end).len() + 1
                &&& log::scan_entries(data, at)[0] == entry
                &&& log::scan_entries(data, at).skip(1) == log::scan_entries(data, end)
                &&& log::scan_offsets(data, at).len() == log::scan_offsets(data, end).len() + 1
                &&& log::scan_offsets(data, at)[0] == at
                &&& log::scan_offsets(data, at).skip(1) == log::scan_offsets(data, end)
                &&& log::scan_end(data, at) == log::scan_end(data, end)
            },
            None => {
                &&& log::scan_entries(data, at).len() == 0
                &&& log::scan_offsets(data, at).len() == 0
                &&& log::scan_end(data, at) == at
            },
        },
{
    if let Some((entry, end)) = log::next_frame(data, at) {
        assert(log::scan_entries(data, at).skip(1) =~= log::scan_entries(data, end));
        assert(log::scan_offsets(data, at).skip(1) =~= log::scan_offsets(data, end));
    }
}

/// Every entry whose text has a length that can be stated survives being written
/// and read: its binary form is read as the entry, and its frame, behind any bytes,
/// is loaded as the entry.
pub proof fn law_every_entry_is_read_as_it_was_written(entry: EntryView, before: Seq<u8>)
    requires
        match entry.payload {
            PayloadView::Queue(RecordView::Enqueued { payload, .. }) => vstd::utf8::encode_utf8(
                payload,
            ).len() <= u64::MAX,
            _ => true,
        },
    ensures
        log::read_entry(log::entry_bytes(entry)) == Some(entry),
        log::entry_bytes(entry).len() < 0x1_0000_0000 ==> log::next_frame(
            before + log::frame_bytes(entry),
            before.len() as int,
        ) == Some((entry, (before + log::frame_bytes(entry)).len() as int)),
{
    log::law_entry_reads_back(entry);
    if log::entry_bytes(entry).len() < 0x1_0000_0000 {
        lemma_next_frame_of_frame(before, entry);
    }
}

/// A frame says how long the entry's binary form is and what its checksum is, and
/// then comes the form.
pub proof fn law_frame_is_length_checksum_and_form(entry: EntryView)
    ensures
        ({
            let form = log::entry_bytes(entry);
            let framed = log::frame_bytes(entry);
            &&& framed.len() == 8 + form.len()
            &&& framed.skip(8) == form
            &&& codec::le_value(framed.take(4)) == form.len() % 0x1_0000_0000
            &&& codec::le_value(framed.subrange(4, 8)) == log::crc32(form)
        }),
{
    let form = log::entry_bytes(entry);
    let len = form.len() % 0x1_0000_0000;
    let crc = log::crc32(form) as nat;
    codec::lemma_le_bytes_len(len, 4);
    codec::lemma_le_bytes_len(crc, 4);
    codec::lemma_u32_fits(len);
    codec::lemma_u32_fits(crc);
    codec::lemma_le_value_of_le_bytes(len, 4);
    codec::lemma_le_value_of_le_bytes(crc, 4);
    let framed = log::frame_bytes(entry);
    assert(framed.skip(8) =~= form);
    assert(framed.take(4) =~= codec::le_bytes(len, 4));
    assert(framed.subrange(4, 8) =~= codec::le_bytes(crc, 4));
}

/// An entry's binary form begins with its term and its index; a record's begins
/// with its place among the kinds of record, in the order in which they are
/// declared, and then names its job.
pub proof fn law_binary_form_begins_with_what_it_is_of(entry: EntryView, record: RecordView)
    ensures
        ({
            let term = codec::varint(entry.term as nat);
            let index = codec::varint(entry.index as nat);
            let form = log::entry_bytes(entry);
            &&& form.len() > term.len() + index.len()
            &&& form.take(term.len() as int) == term
            &&& form.subrange(term.len() as int, (term.len() + index.len()) as int) == index
            &&& form[(term.len() + index.len()) as int] == (if entry.payload is Noop {
                0u8
            } else {
                1u8
            })
        }),
        ({
            let form = log::record_bytes(record);
            let (kind, job) = match record {
                RecordView::Enqueued { job_id, .. } => (0u8, job_id),
                RecordView::Leased { job_id, .. } => (1u8, job_id),
                RecordView::Acked { job_id, .. } => (2u8, job_id),
                RecordView::Retried { job_id, .. } => (3u8, job_id),
                RecordView::DeadLettered { job_id, .. } => (4u8, job_id),
                RecordView::Redriven { job_id } => (5u8, job_id),
            };
            let named = codec::varint(job as nat);
            &&& form.len() >= 1 + named.len()
            &&& form[0] == kind
            &&& form.subrange(1, (1 + named.len()) as int) == named
        }),
{
    let term = codec::varint(entry.term as nat);
    let index = codec::varint(entry.index as nat);
    let form = log::entry_bytes(entry);
    assert(form.take(term.len() as int) =~= term);
    assert(form.subrange(term.len() as int, (term.len() + index.len()) as int) =~= index);
    let job = match record {
        RecordView::Enqueued { job_id, .. } => job_id,
        RecordView::Leased { job_id, .. } => job_id,
        RecordView::Acked { job_id, .. } => job_id,
        RecordView::Retried { job_id, .. } => job_id,
        RecordView::DeadLettered { job_id, .. } => job_id,
        RecordView::Redriven { job_id } => job_id,
    };
    let named = codec::varint(job as nat);
    assert(log::record_bytes(record).subrange(1, (1 + named.len()) as int) =~= named);
}

} // verus!
