//! The two indices of a segment.
//!
//! The offset index is sparse: an entry gives the position in the log of a batch
//! by the batch's offset, counted from the segment's first. The time index
//! gives such an offset by a timestamp. Both grow at their ends and are searched
//! by halving.

use bytes::Bytes;
use vstd::prelude::*;
use vstd::slice::slice_subrange;

use crate::buf::bytes_view;
use crate::protocol::primitive::Encoder;
use crate::protocol::wire::{
    be, be_i32, be_i64, be_u32, be_value, enc_i32, enc_i64, lemma_be_len, lemma_be_round_trip,
    lemma_int_round_trip, lemma_pow256, signed32, signed64,
};

verus! {

/// An entry of the offset index.
#[derive(Debug, Clone, Copy, PartialEq, Eq, Structural)]
pub struct OffsetIndexEntry {
    /// The offset of a batch, counted from the segment's first.
    pub relative_offset: i32,
    /// Where the batch begins in the log.
    pub position: u32,
}

/// An entry of the time index.
#[derive(Debug, Clone, Copy, PartialEq, Eq, Structural)]
pub struct TimeIndexEntry {
    pub timestamp: i64,
    /// The offset of a batch, counted from the segment's first.
    pub relative_offset: i32,
}

/// The offset index of a segment.
#[derive(Debug)]
pub struct OffsetIndex {
    pub entries: Vec<OffsetIndexEntry>,
}

/// The time index of a segment.
#[derive(Debug)]
pub struct TimeIndex {
    pub entries: Vec<TimeIndexEntry>,
}

impl View for OffsetIndex {
    type V = Seq<OffsetIndexEntry>;

    open spec fn view(&self) -> Seq<OffsetIndexEntry> {
        self.entries@
    }
}

impl View for TimeIndex {
    type V = Seq<TimeIndexEntry>;

    open spec fn view(&self) -> Seq<TimeIndexEntry> {
        self.entries@
    }
}

// ---------------------------------------------------------------------------
// The files

/// An entry takes eight bytes.
pub open spec fn enc_offset_entry(e: OffsetIndexEntry) -> Seq<u8> {
    enc_i32(e.relative_offset) + be(e.position as nat, 4)
}

pub open spec fn enc_offset_entries(es: Seq<OffsetIndexEntry>) -> Seq<u8>
    decreases es.len(),
{
    if es.len() == 0 {
        Seq::empty()
    } else {
        enc_offset_entries(es.drop_last()) + enc_offset_entry(es.last())
    }
}

pub open spec fn offset_entry_at(file: Seq<u8>, i: int) -> OffsetIndexEntry {
    OffsetIndexEntry {
        relative_offset: signed32(be_value(file.subrange(8 * i, 8 * i + 4))),
        position: be_value(file.subrange(8 * i + 4, 8 * i + 8)) as u32,
    }
}

/// The entries that a file holds; bytes at the end that make no entry do not
/// count.
pub open spec fn offset_entries(file: Seq<u8>) -> Seq<OffsetIndexEntry> {
    Seq::new(file.len() / 8, |i: int| offset_entry_at(file, i))
}

/// An entry takes twelve bytes.
pub open spec fn enc_time_entry(e: TimeIndexEntry) -> Seq<u8> {
    enc_i64(e.timestamp) + enc_i32(e.relative_offset)
}

pub open spec fn enc_time_entries(es: Seq<TimeIndexEntry>) -> Seq<u8>
    decreases es.len(),
{
    if es.len() == 0 {
        Seq::empty()
    } else {
        enc_time_entries(es.drop_last()) + enc_time_entry(es.last())
    }
}

pub open spec fn time_entry_at(file: Seq<u8>, i: int) -> TimeIndexEntry {
    TimeIndexEntry {
        timestamp: signed64(be_value(file.subrange(12 * i, 12 * i + 8))),
        relative_offset: signed32(be_value(file.subrange(12 * i + 8, 12 * i + 12))),
    }
}

/// The entries that a file holds; bytes at the end that make no entry do not
/// count.
pub open spec fn time_entries(file: Seq<u8>) -> Seq<TimeIndexEntry> {
    Seq::new(file.len() / 12, |i: int| time_entry_at(file, i))
}

/// A file of whole entries with an entry written behind them holds the entries
/// and the new one.
pub proof fn law_offset_entry_written(file: Seq<u8>, e: OffsetIndexEntry)
    requires
        file.len() % 8 == 0,
    ensures
        offset_entries(file + enc_offset_entry(e)) == offset_entries(file).push(e),
        (file + enc_offset_entry(e)).len() % 8 == 0,
{
    broadcast use lemma_be_len;

    let n = file.len() as int / 8;
    let whole = file + enc_offset_entry(e);
    assert(whole.len() == file.len() + 8);
    assert forall|i: int| 0 <= i < n implies offset_entry_at(whole, i) == offset_entry_at(
        file,
        i,
    ) by {
        assert(whole.subrange(8 * i, 8 * i + 4) =~= file.subrange(8 * i, 8 * i + 4));
        assert(whole.subrange(8 * i + 4, 8 * i + 8) =~= file.subrange(8 * i + 4, 8 * i + 8));
    }
    assert(8 * n == file.len());
    assert(whole.subrange(8 * n, 8 * n + 4) =~= enc_i32(e.relative_offset));
    assert(whole.subrange(8 * n + 4, 8 * n + 8) =~= be(e.position as nat, 4));
    lemma_int_round_trip(0, 0, e.relative_offset, 0);
    lemma_pow256();
    lemma_be_round_trip(e.position as nat, 4);
    assert(offset_entry_at(whole, n) == e);
    assert(offset_entries(whole) =~= offset_entries(file).push(e));
}

/// A file of whole entries with an entry written behind them holds the entries
/// and the new one.
pub proof fn law_time_entry_written(file: Seq<u8>, e: TimeIndexEntry)
    requires
        file.len() % 12 == 0,
    ensures
        time_entries(file + enc_time_entry(e)) == time_entries(file).push(e),
        (file + enc_time_entry(e)).len() % 12 == 0,
{
    broadcast use lemma_be_len;

    let n = file.len() as int / 12;
    let whole = file + enc_time_entry(e);
    assert(whole.len() == file.len() + 12);
    assert forall|i: int| 0 <= i < n implies time_entry_at(whole, i) == time_entry_at(
        file,
        i,
    ) by {
        assert(whole.subrange(12 * i, 12 * i + 8) =~= file.subrange(12 * i, 12 * i + 8));
        assert(whole.subrange(12 * i + 8, 12 * i + 12) =~= file.subrange(12 * i + 8, 12 * i + 12));
    }
    assert(12 * n == file.len());
    assert(whole.subrange(12 * n, 12 * n + 8) =~= enc_i64(e.timestamp));
    assert(whole.subrange(12 * n + 8, 12 * n + 12) =~= enc_i32(e.relative_offset));
    lemma_int_round_trip(0, 0, e.relative_offset, e.timestamp);
    assert(time_entry_at(whole, n) == e);
    assert(time_entries(whole) =~= time_entries(file).push(e));
}

/// The entries of an offset index read back from its file.
pub proof fn law_offset_index_round_trip(es: Seq<OffsetIndexEntry>)
    ensures
        offset_entries(enc_offset_entries(es)) == es,
        enc_offset_entries(es).len() % 8 == 0,
    decreases es.len(),
{
    if es.len() == 0 {
        assert(offset_entries(enc_offset_entries(es)) =~= es);
    } else {
        law_offset_index_round_trip(es.drop_last());
        law_offset_entry_written(enc_offset_entries(es.drop_last()), es.last());
        assert(es.drop_last().push(es.last()) =~= es);
    }
}

/// The entries of a time index read back from its file.
pub proof fn law_time_index_round_trip(es: Seq<TimeIndexEntry>)
    ensures
        time_entries(enc_time_entries(es)) == es,
        enc_time_entries(es).len() % 12 == 0,
    decreases es.len(),
{
    if es.len() == 0 {
        assert(time_entries(enc_time_entries(es)) =~= es);
    } else {
        law_time_index_round_trip(es.drop_last());
        law_time_entry_written(enc_time_entries(es.drop_last()), es.last());
        assert(es.drop_last().push(es.last()) =~= es);
    }
}

// ---------------------------------------------------------------------------
// Searching

/// Whether the offsets never fall.
pub open spec fn offsets_sorted(es: Seq<OffsetIndexEntry>) -> bool {
    forall|i: int, j: int|
        0 <= i <= j < es.len() ==> (#[trigger] es[i]).relative_offset <= (
        #[trigger] es[j]).relative_offset
}

/// Whether the timestamps never fall.
pub open spec fn times_sorted(es: Seq<TimeIndexEntry>) -> bool {
    forall|i: int, j: int|
        0 <= i <= j < es.len() ==> (#[trigger] es[i]).timestamp <= (#[trigger] es[j]).timestamp
}

/// Whether the first `n` entries, and no others, are at or below the target, as
/// far as the two entries at that place tell.
pub open spec fn splits_at(es: Seq<OffsetIndexEntry>, target: i32, n: int) -> bool {
    &&& 0 <= n <= es.len()
    &&& n > 0 ==> es[n - 1].relative_offset <= target
    &&& n < es.len() ==> es[n].relative_offset > target
}

/// The position of the last of the first `n` entries.
pub open spec fn position_before(es: Seq<OffsetIndexEntry>, n: int) -> Option<u32> {
    if n == 0 {
        None
    } else {
        Some(es[n - 1].position)
    }
}

/// Whether the first `n` entries, and no others, are before the target, as far
/// as the two entries at that place tell.
pub open spec fn splits_times_at(es: Seq<TimeIndexEntry>, target: i64, n: int) -> bool {
    &&& 0 <= n <= es.len()
    &&& n > 0 ==> es[n - 1].timestamp < target
    &&& n < es.len() ==> es[n].timestamp >= target
}

/// The offset of the entry after the first `n`.
pub open spec fn offset_after(es: Seq<TimeIndexEntry>, n: int) -> Option<i32> {
    if n == es.len() {
        None
    } else {
        Some(es[n].relative_offset)
    }
}

/// In a sorted offset index the greatest entry at or below a target is the one
/// found, and there is one place only where it can be.
pub proof fn law_offset_split_is_unique(es: Seq<OffsetIndexEntry>, target: i32, n: int, m: int)
    requires
        offsets_sorted(es),
        splits_at(es, target, n),
        splits_at(es, target, m),
    ensures
        n == m,
        forall|i: int| 0 <= i < n ==> (#[trigger] es[i]).relative_offset <= target,
        forall|i: int| n <= i < es.len() ==> (#[trigger] es[i]).relative_offset > target,
{
}

/// In a sorted time index the earliest entry at or after a target is the one
/// found, and there is one place only where it can be.
pub proof fn law_time_split_is_unique(es: Seq<TimeIndexEntry>, target: i64, n: int, m: int)
    requires
        times_sorted(es),
        splits_times_at(es, target, n),
        splits_times_at(es, target, m),
    ensures
        n == m,
        forall|i: int| 0 <= i < n ==> (#[trigger] es[i]).timestamp < target,
        forall|i: int| n <= i < es.len() ==> (#[trigger] es[i]).timestamp >= target,
{
}

fn put_offset_entry(e: &mut Encoder, entry: &OffsetIndexEntry)
    ensures
        final(e)@ == old(e)@ + enc_offset_entry(*entry),
{
    e.put_i32(entry.relative_offset);
    e.put_u32(entry.position);
    assert(e@ =~= old(e)@ + enc_offset_entry(*entry));
}

impl OffsetIndex {
    /// The index that a file holds.
    pub fn open(file: &[u8]) -> (r: Self)
        ensures
            r@ == offset_entries(file@),
    {
        let mut entries: Vec<OffsetIndexEntry> = Vec::new();
        let n: usize = file.len() / 8;
        let mut i: usize = 0;
        while i < n
            invariant
                i <= n,
                n == file@.len() / 8,
                file@.len() <= usize::MAX,
                entries@.len() == i,
                forall|j: int| 0 <= j < i ==> #[trigger] entries@[j] == offset_entry_at(file@, j),
            decreases n - i,
        {
            let at: usize = 8 * i;
            let relative_offset = be_i32(slice_subrange(file, at, at + 4));
            let position = be_u32(slice_subrange(file, at + 4, at + 8));
            entries.push(OffsetIndexEntry { relative_offset, position });
            i = i + 1;
        }
        assert(entries@ =~= offset_entries(file@));
        OffsetIndex { entries }
    }

    /// Adds an entry. What is returned goes to the end of the file.
    pub fn append(&mut self, relative_offset: i32, position: u32) -> (r: Bytes)
        ensures
            final(self)@ == old(self)@.push(OffsetIndexEntry { relative_offset, position }),
            bytes_view(r) == enc_offset_entry(OffsetIndexEntry { relative_offset, position }),
    {
        let entry = OffsetIndexEntry { relative_offset, position };
        self.entries.push(entry);
        let mut e = Encoder::new();
        put_offset_entry(&mut e, &entry);
        assert(e@ =~= enc_offset_entry(entry));
        e.into_bytes()
    }

    /// The position of the greatest entry at or below the target.
    pub fn lookup(&self, target_relative: i32) -> (r: Option<u32>)
        ensures
            exists|n: int| #[trigger]
                splits_at(self@, target_relative, n) && r == position_before(self@, n),
    {
        let mut lo: usize = 0;
        let mut hi: usize = self.entries.len();
        while lo < hi
            invariant
                lo <= hi <= self.entries@.len(),
                lo > 0 ==> self.entries@[lo - 1].relative_offset <= target_relative,
                hi < self.entries@.len() ==> self.entries@[hi as int].relative_offset
                    > target_relative,
            decreases hi - lo,
        {
            let mid: usize = lo + (hi - lo) / 2;
            if self.entries[mid].relative_offset <= target_relative {
                lo = mid + 1;
            } else {
                hi = mid;
            }
        }
        assert(splits_at(self@, target_relative, lo as int));
        if lo == 0 {
            return None;
        }
        Some(self.entries[lo - 1].position)
    }

    /// The position of the last entry.
    pub fn last_position(&self) -> (r: u32)
        ensures
            r == if self@.len() == 0 {
                0
            } else {
                self@.last().position
            },
    {
        if self.entries.len() == 0 {
            0
        } else {
            self.entries[self.entries.len() - 1].position
        }
    }

    pub fn len(&self) -> (r: usize)
        ensures
            r == self@.len(),
    {
        self.entries.len()
    }

    pub fn is_empty(&self) -> (r: bool)
        ensures
            r == (self@.len() == 0),
    {
        self.entries.len() == 0
    }

    /// Keeps the entries whose position is below `max_position`. What is
    /// returned takes the place of the file.
    pub fn truncate_to(&mut self, max_position: u32) -> (r: Bytes)
        ensures
            final(self)@ == old(self)@.filter(|e: OffsetIndexEntry| e.position < max_position),
            bytes_view(r) == enc_offset_entries(final(self)@),
    {
        let mut keep: Vec<OffsetIndexEntry> = Vec::new();
        let mut e = Encoder::new();
        let ghost below = |e: OffsetIndexEntry| e.position < max_position;
        let ghost es = self.entries@;
        let mut i: usize = 0;
        proof {
            reveal(Seq::filter);
        }
        while i < self.entries.len()
            invariant
                i <= es.len(),
                es == self.entries@,
                below == (|e: OffsetIndexEntry| e.position < max_position),
                keep@ == es.take(i as int).filter(below),
                e@ == enc_offset_entries(keep@),
            decreases es.len() - i,
        {
            proof {
                reveal(Seq::filter);
                assert(es.take(i + 1).drop_last() =~= es.take(i as int));
            }
            let entry = self.entries[i];
            if entry.position < max_position {
                let ghost before = keep@;
                keep.push(entry);
                put_offset_entry(&mut e, &entry);
                assert(keep@.drop_last() =~= before);
            }
            i = i + 1;
        }
        assert(es.take(i as int) =~= es);
        self.entries = keep;
        e.into_bytes()
    }
}

impl TimeIndex {
    /// The index that a file holds.
    pub fn open(file: &[u8]) -> (r: Self)
        ensures
            r@ == time_entries(file@),
    {
        let mut entries: Vec<TimeIndexEntry> = Vec::new();
        let n: usize = file.len() / 12;
        let mut i: usize = 0;
        while i < n
            invariant
                i <= n,
                n == file@.len() / 12,
                file@.len() <= usize::MAX,
                entries@.len() == i,
                forall|j: int| 0 <= j < i ==> #[trigger] entries@[j] == time_entry_at(file@, j),
            decreases n - i,
        {
            let at: usize = 12 * i;
            let timestamp = be_i64(slice_subrange(file, at, at + 8));
            let relative_offset = be_i32(slice_subrange(file, at + 8, at + 12));
            entries.push(TimeIndexEntry { timestamp, relative_offset });
            i = i + 1;
        }
        assert(entries@ =~= time_entries(file@));
        TimeIndex { entries }
    }

    /// Adds an entry. What is returned goes to the end of the file.
    pub fn append(&mut self, timestamp: i64, relative_offset: i32) -> (r: Bytes)
        ensures
            final(self)@ == old(self)@.push(TimeIndexEntry { timestamp, relative_offset }),
            bytes_view(r) == enc_time_entry(TimeIndexEntry { timestamp, relative_offset }),
    {
        self.entries.push(TimeIndexEntry { timestamp, relative_offset });
        let mut e = Encoder::new();
        e.put_i64(timestamp);
        e.put_i32(relative_offset);
        assert(e@ =~= enc_time_entry(TimeIndexEntry { timestamp, relative_offset }));
        e.into_bytes()
    }

    /// The offset of the earliest entry at or after the target.
    pub fn lookup(&self, target_ts: i64) -> (r: Option<i32>)
        ensures
            exists|n: int| #[trigger]
                splits_times_at(self@, target_ts, n) && r == offset_after(self@, n),
    {
        let mut lo: usize = 0;
        let mut hi: usize = self.entries.len();
        while lo < hi
            invariant
                lo <= hi <= self.entries@.len(),
                lo > 0 ==> self.entries@[lo - 1].timestamp < target_ts,
                hi < self.entries@.len() ==> self.entries@[hi as int].timestamp >= target_ts,
            decreases hi - lo,
        {
            let mid: usize = lo + (hi - lo) / 2;
            if self.entries[mid].timestamp < target_ts {
                lo = mid + 1;
            } else {
                hi = mid;
            }
        }
        assert(splits_times_at(self@, target_ts, lo as int));
        if lo == self.entries.len() {
            None
        } else {
            Some(self.entries[lo].relative_offset)
        }
    }
}

} // verus!
