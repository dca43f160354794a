//! Going through a run of bytes batch by batch.

use bytes::Bytes;
use vstd::prelude::*;
use vstd::slice::slice_subrange;

use crate::buf::bytes_view;
use crate::protocol::primitive::Encoder;
use crate::protocol::recordbatch::{batch_frame, frame_len, law_first_batch};
use crate::protocol::wire::{be_i32, be_i64, be_value, signed32, signed64};

verus! {

/// The batches that stand one after the other at the front of `s`.
pub open spec fn frames(s: Seq<u8>) -> Seq<Seq<u8>>
    decreases s.len(),
{
    match frame_len(s) {
        Some(n) if n > 0 => seq![s.take(n as int)] + frames(s.skip(n as int)),
        _ => Seq::empty(),
    }
}

/// Whether `s` is batches to its end.
pub open spec fn whole(s: Seq<u8>) -> bool
    decreases s.len(),
{
    match frame_len(s) {
        Some(n) if n > 0 => whole(s.skip(n as int)),
        _ => s.len() == 0,
    }
}

/// The offset of a batch's first record.
pub open spec fn frame_base(f: Seq<u8>) -> i64 {
    signed64(be_value(f.subrange(0, 8)))
}

/// The offset of a batch's last record: that of the first if the batch is too
/// short to say.
pub open spec fn frame_last(f: Seq<u8>) -> i64 {
    if f.len() < 27 {
        frame_base(f)
    } else {
        let last = frame_base(f) + signed32(be_value(f.subrange(23, 27)));
        if last > i64::MAX {
            i64::MAX
        } else if last < i64::MIN {
            i64::MIN
        } else {
            last as i64
        }
    }
}

/// The batches from the first on that begins at `start` or later.
pub open spec fn from_offset(fs: Seq<Seq<u8>>, start: i64) -> Seq<Seq<u8>>
    decreases fs.len(),
{
    if fs.len() == 0 || frame_base(fs[0]) >= start {
        fs
    } else {
        from_offset(fs.skip(1), start)
    }
}

/// The bytes of as many batches as fit in `max`.
pub open spec fn fitting(fs: Seq<Seq<u8>>, max: int) -> Seq<u8>
    decreases fs.len(),
{
    if fs.len() == 0 || fs[0].len() > max {
        Seq::empty()
    } else {
        fs[0] + fitting(fs.skip(1), max - fs[0].len())
    }
}

/// What a reader gets who asks for batches from `start` on, at most `max` bytes
/// of them.
pub open spec fn selected(s: Seq<u8>, start: i64, max: int) -> Seq<u8> {
    fitting(from_offset(frames(s), start), max)
}

/// The offset of the last record in a run of batches.
pub open spec fn last_offset_in(s: Seq<u8>) -> Option<i64> {
    let fs = frames(s);
    if fs.len() == 0 {
        None
    } else {
        Some(frame_last(fs.last()))
    }
}

// ---------------------------------------------------------------------------

/// Batches end where they end: more bytes behind them change nothing.
pub proof fn lemma_frames_concat(a: Seq<u8>, b: Seq<u8>)
    requires
        whole(a),
    ensures
        frames(a + b) == frames(a) + frames(b),
        whole(a + b) == whole(b),
    decreases a.len(),
{
    if a.len() == 0 {
        assert(a + b =~= b);
        assert(frames(a) + frames(b) =~= frames(b));
    } else {
        let n = frame_len(a)->Some_0 as int;
        let first = a.take(n);
        let rest = a.skip(n);
        assert(first.subrange(8, 12) =~= a.subrange(8, 12));
        assert(a + b =~= first + (rest + b));
        law_first_batch(first, rest + b);
        lemma_frames_concat(rest, b);
        assert(frames(a + b) =~= frames(a) + frames(b));
    }
}

/// A single batch.
pub proof fn lemma_one_frame(f: Seq<u8>)
    requires
        f.len() > 0,
        frame_len(f) == Some(f.len()),
    ensures
        frames(f) == seq![f],
        whole(f),
{
    let n = f.len() as int;
    assert(f.skip(n) =~= Seq::empty());
    assert(f.take(n) =~= f);
    assert(whole(f.skip(n)));
    assert(frames(f.skip(n)) =~= Seq::empty());
    assert(frames(f) =~= seq![f]);
}

/// Whether every batch begins before `start`.
pub open spec fn all_before(fs: Seq<Seq<u8>>, start: int) -> bool {
    forall|i: int| 0 <= i < fs.len() ==> frame_base(#[trigger] fs[i]) < start
}

/// Batches that begin before `start` are passed over.
pub proof fn lemma_passed_over(a: Seq<Seq<u8>>, b: Seq<Seq<u8>>, start: i64)
    requires
        all_before(a, start as int),
    ensures
        from_offset(a + b, start) == from_offset(b, start),
    decreases a.len(),
{
    if a.len() == 0 {
        assert(a + b =~= b);
    } else {
        assert((a + b)[0] == a[0]);
        assert((a + b).skip(1) =~= a.skip(1) + b);
        assert(all_before(a.skip(1), start as int)) by {
            assert(forall|i: int| 0 <= i < a.len() - 1 ==> #[trigger] a.skip(1)[i] == a[i + 1]);
        }
        lemma_passed_over(a.skip(1), b, start);
    }
}

/// It does not matter where a search begins, as long as only batches before
/// `start` are left out.
pub proof fn law_search_may_skip(s: Seq<u8>, position: int, start: i64, max: int)
    requires
        0 <= position <= s.len(),
        whole(s.take(position)),
        all_before(frames(s.take(position)), start as int),
    ensures
        selected(s.skip(position), start, max) == selected(s, start, max),
{
    assert(s =~= s.take(position) + s.skip(position));
    lemma_frames_concat(s.take(position), s.skip(position));
    lemma_passed_over(frames(s.take(position)), frames(s.skip(position)), start);
}

/// A batch put behind others that begin earlier is what is read from its offset
/// on, if it fits.
pub proof fn law_last_batch_is_read(s: Seq<u8>, f: Seq<u8>, max: int)
    requires
        whole(s),
        f.len() > 0,
        frame_len(f) == Some(f.len()),
        all_before(frames(s), frame_base(f) as int),
        f.len() <= max,
    ensures
        selected(s + f, frame_base(f), max) == f,
{
    lemma_frames_concat(s, f);
    lemma_one_frame(f);
    lemma_passed_over(frames(s), seq![f], frame_base(f));
    let fs = seq![f];
    assert(fs.skip(1) =~= Seq::empty());
    assert(fitting(fs.skip(1), max - f.len()) =~= Seq::empty());
    assert(fs[0] + Seq::empty() =~= f);
}

/// No more is read than was asked for.
pub proof fn law_read_within_limit(s: Seq<u8>, start: i64, max: int)
    requires
        max >= 0,
    ensures
        selected(s, start, max).len() <= max,
{
    lemma_fitting_len(from_offset(frames(s), start), max);
}

proof fn lemma_fitting_len(fs: Seq<Seq<u8>>, max: int)
    requires
        max >= 0,
    ensures
        fitting(fs, max).len() <= max,
    decreases fs.len(),
{
    if fs.len() > 0 && fs[0].len() <= max {
        lemma_fitting_len(fs.skip(1), max - fs[0].len());
    }
}

/// What is read is batches to its end.
pub proof fn law_read_is_whole(s: Seq<u8>, start: i64, max: int)
    ensures
        whole(selected(s, start, max)),
{
    lemma_frames_are_frames(s);
    lemma_from_offset_suffix(frames(s), start);
    lemma_fitting_whole(from_offset(frames(s), start), max);
}

/// Whether each is a batch.
spec fn are_frames(fs: Seq<Seq<u8>>) -> bool {
    forall|i: int|
        0 <= i < fs.len() ==> (#[trigger] fs[i]).len() > 0 && frame_len(fs[i]) == Some(fs[i].len())
}

proof fn lemma_frames_are_frames(s: Seq<u8>)
    ensures
        are_frames(frames(s)),
    decreases s.len(),
{
    match frame_len(s) {
        Some(n) if n > 0 => {
            lemma_frames_are_frames(s.skip(n as int));
            let first = s.take(n as int);
            assert(first.subrange(8, 12) =~= s.subrange(8, 12));
        },
        _ => {},
    }
}

proof fn lemma_from_offset_suffix(fs: Seq<Seq<u8>>, start: i64)
    requires
        are_frames(fs),
    ensures
        are_frames(from_offset(fs, start)),
    decreases fs.len(),
{
    if fs.len() > 0 && frame_base(fs[0]) < start {
        assert(forall|i: int| 0 <= i < fs.len() - 1 ==> #[trigger] fs.skip(1)[i] == fs[i + 1]);
        lemma_from_offset_suffix(fs.skip(1), start);
    }
}

proof fn lemma_fitting_whole(fs: Seq<Seq<u8>>, max: int)
    requires
        are_frames(fs),
    ensures
        whole(fitting(fs, max)),
    decreases fs.len(),
{
    if fs.len() > 0 && fs[0].len() <= max {
        assert(forall|i: int| 0 <= i < fs.len() - 1 ==> #[trigger] fs.skip(1)[i] == fs[i + 1]);
        lemma_fitting_whole(fs.skip(1), max - fs[0].len());
        lemma_one_frame(fs[0]);
        lemma_frames_concat(fs[0], fitting(fs.skip(1), max - fs[0].len()));
    }
}

// ---------------------------------------------------------------------------

/// The batches in `buf` from `start` on, at most `max_bytes` of them.
pub fn select_batches(buf: &[u8], start: i64, max_bytes: usize) -> (r: Bytes)
    ensures
        bytes_view(r) == selected(buf@, start, max_bytes as int),
{
    let mut out = Encoder::new();
    let mut p: usize = 0;
    let mut room: usize = max_bytes;
    let mut started = false;
    let len = buf.len();
    let ghost s = buf@;
    assert(s.skip(0) =~= s);
    loop
        invariant
            s == buf@,
            len == s.len(),
            p <= len,
            !started ==> {
                &&& out@ == Seq::<u8>::empty()
                &&& room == max_bytes
                &&& from_offset(frames(s), start) == from_offset(frames(s.skip(p as int)), start)
            },
            started ==> selected(s, start, max_bytes as int) == out@ + fitting(
                frames(s.skip(p as int)),
                room as int,
            ),
        ensures
            out@ == selected(s, start, max_bytes as int),
        decreases len - p,
    {
        let rest = slice_subrange(buf, p, len);
        let ghost t = s.skip(p as int);
        assert(rest@ =~= t);
        match batch_frame(rest) {
            None => {
                assert(out@ =~= selected(s, start, max_bytes as int));
                break;
            },
            Some(total) => {
                let frame = slice_subrange(rest, 0, total);
                proof {
                    assert(frame@ =~= t.take(total as int));
                    assert(t.skip(total as int) =~= s.skip(p + total));
                    assert(frames(t)[0] == frame@);
                    assert(frames(t).skip(1) =~= frames(s.skip(p + total)));
                    assert(frame@.subrange(0, 8) =~= rest@.subrange(0, 8));
                }
                let base = be_i64(slice_subrange(rest, 0, 8));
                if base >= start {
                    if !started {
                        proof {
                            assert(out@ + fitting(frames(t), room as int) =~= fitting(
                                frames(t),
                                room as int,
                            ));
                        }
                        started = true;
                    }
                }
                if started {
                    if total > room {
                        assert(out@ =~= selected(s, start, max_bytes as int));
                        break;
                    }
                    let ghost before = out@;
                    out.put_bytes(frame);
                    room = room - total;
                    proof {
                        assert(before + (frame@ + fitting(frames(s.skip(p + total)), room as int))
                            =~= out@ + fitting(frames(s.skip(p + total)), room as int));
                    }
                }
                p = p + total;
            },
        }
    }
    out.into_bytes()
}

/// The offset of the last record in a run of batches.
pub fn last_batch_offset(buf: &[u8]) -> (r: Option<i64>)
    ensures
        r == last_offset_in(buf@),
{
    let mut last: Option<i64> = None;
    let mut p: usize = 0;
    let len = buf.len();
    let ghost s = buf@;
    let ghost mut before: Seq<Seq<u8>> = Seq::empty();
    assert(s.skip(0) =~= s);
    assert(before + frames(s) =~= frames(s));
    loop
        invariant
            s == buf@,
            len == s.len(),
            p <= len,
            frames(s) == before + frames(s.skip(p as int)),
            last == if before.len() == 0 {
                None::<i64>
            } else {
                Some(frame_last(before.last()))
            },
        ensures
            last == last_offset_in(s),
        decreases len - p,
    {
        let rest = slice_subrange(buf, p, len);
        let ghost t = s.skip(p as int);
        assert(rest@ =~= t);
        match batch_frame(rest) {
            None => {
                assert(frames(s) =~= before);
                break;
            },
            Some(total) => {
                let frame = slice_subrange(rest, 0, total);
                let base = be_i64(slice_subrange(frame, 0, 8));
                last = if total < 27 {
                    Some(base)
                } else {
                    let delta = be_i32(slice_subrange(frame, 23, 27));
                    match base.checked_add(delta as i64) {
                        Some(o) => Some(o),
                        None => Some(
                            if delta >= 0 {
                                i64::MAX
                            } else {
                                i64::MIN
                            },
                        ),
                    }
                };
                proof {
                    assert(frame@ =~= t.take(total as int));
                    assert(t.skip(total as int) =~= s.skip(p + total));
                    assert(before + (seq![frame@] + frames(s.skip(p + total))) =~= before.push(
                        frame@,
                    ) + frames(s.skip(p + total)));
                    before = before.push(frame@);
                }
                p = p + total;
            },
        }
    }
    last
}

} // verus!
