//! Sample-accurate event timelines for offline rendering and regression runs.
//! An entry is an absolute frame and the index of its event in the host's
//! event list; timelines are kept in stable frame order and cut into blocks
//! of frame offsets.

use vstd::prelude::*;

verus! {

/// An event at an absolute frame; `event` indexes the host's event list.
#[derive(Debug, Clone, Copy, PartialEq, Eq, Structural)]
pub struct TimedMidiEvent {
    pub frame: u64,
    pub event: usize,
}

/// An event placed inside a block.
#[derive(Debug, Clone, Copy, PartialEq, Eq, Structural)]
pub struct BlockEvent {
    pub frame_offset: usize,
    pub event: usize,
}

/// Frame order, ties broken by event index (the order the events came in).
pub open spec fn precedes(a: TimedMidiEvent, b: TimedMidiEvent) -> bool {
    a.frame < b.frame || (a.frame == b.frame && a.event < b.event)
}

pub open spec fn strictly_sorted(s: Seq<TimedMidiEvent>) -> bool {
    forall|i: int, j: int| 0 <= i < j < s.len() ==> precedes(s[i], s[j])
}

/// `s` is the stable frame ordering of `frames`: entry `i` of the input
/// appears exactly once, with its frame.
pub open spec fn is_stable_order(frames: Seq<u64>, s: Seq<TimedMidiEvent>) -> bool {
    &&& s.len() == frames.len()
    &&& strictly_sorted(s)
    &&& forall|k: int| 0 <= k < s.len() ==> (#[trigger] s[k]).event < frames.len() && s[k].frame == frames[s[k].event as int]
    &&& forall|i: int| 0 <= i < frames.len() ==> #[trigger] has_event(s, i)
}

pub open spec fn has_event(s: Seq<TimedMidiEvent>, i: int) -> bool {
    exists|k: int| 0 <= k < s.len() && s[k].event == i
}

/// Stable sort by frame of the entries `(frames[i], i)`.
pub fn stable_order(frames: &[u64]) -> (s: Vec<TimedMidiEvent>)
    ensures
        is_stable_order(frames@, s@),
{
    let mut out: Vec<TimedMidiEvent> = Vec::new();
    let mut i: usize = 0;
    while i < frames.len()
        invariant
            i <= frames@.len(),
            out@.len() == i,
            strictly_sorted(out@),
            forall|k: int| 0 <= k < out@.len() ==> (#[trigger] out@[k]).event < i && out@[k].frame == frames@[out@[k].event as int],
            forall|j: int| 0 <= j < i ==> #[trigger] has_event(out@, j),
        decreases frames@.len() - i,
    {
        let f = frames[i];
        let mut pos: usize = 0;
        while pos < out.len() && out[pos].frame <= f
            invariant
                pos <= out@.len(),
                forall|k: int| 0 <= k < pos ==> out@[k].frame <= f,
            decreases out@.len() - pos,
        {
            pos = pos + 1;
        }
        let ghost before = out@;
        let entry = TimedMidiEvent { frame: f, event: i };
        out.insert(pos, entry);
        proof {
            let o = out@;
            assert(o == before.insert(pos as int, entry));
            assert forall|a: int, b: int| 0 <= a < b < o.len() implies precedes(o[a], o[b]) by {
                if a < pos && b == pos {
                    assert(before[a].frame <= f);
                    assert(before[a].event < i);
                } else if a == pos && b > pos {
                    assert(o[b] == before[b - 1]);
                    assert(before[b - 1].frame > f) by {
                        if b - 1 > pos {
                            assert(precedes(before[pos as int], before[b - 1]));
                        }
                    }
                } else if a < pos && b > pos {
                    assert(o[b] == before[b - 1]);
                    assert(precedes(before[a], before[b - 1]));
                } else if a > pos {
                    assert(o[a] == before[a - 1] && o[b] == before[b - 1]);
                    assert(precedes(before[a - 1], before[b - 1]));
                } else {
                    assert(precedes(before[a], before[b]));
                }
            }
            assert forall|j: int| 0 <= j < i + 1 implies #[trigger] has_event(o, j) by {
                if j == i {
                    assert(o[pos as int].event == j);
                } else {
                    assert(has_event(before, j));
                    let k = choose|k: int| 0 <= k < before.len() && before[k].event == j;
                    if k < pos {
                        assert(o[k] == before[k]);
                    } else {
                        assert(o[k + 1] == before[k]);
                    }
                }
            }
            assert forall|k: int| 0 <= k < o.len() implies (#[trigger] o[k]).event < i + 1 && o[k].frame
                == frames@[o[k].event as int] by {
                if k < pos {
                    assert(o[k] == before[k]);
                } else if k > pos {
                    assert(o[k] == before[k - 1]);
                }
            }
        }
        i = i + 1;
    }
    out
}

/// Number of entries before `frame` in a frame-sorted timeline.
pub open spec fn count_before(s: Seq<TimedMidiEvent>, frame: int) -> nat
    decreases s.len(),
{
    if s.len() == 0 {
        0
    } else {
        count_before(s.drop_last(), frame) + if s.last().frame < frame {
            1nat
        } else {
            0nat
        }
    }
}

pub open spec fn frames_sorted(s: Seq<TimedMidiEvent>) -> bool {
    forall|i: int, j: int| 0 <= i <= j < s.len() ==> s[i].frame <= s[j].frame
}

/// In a frame-sorted timeline the entries before `frame` form a prefix.
pub proof fn lemma_count_before(s: Seq<TimedMidiEvent>, frame: int)
    requires
        frames_sorted(s),
    ensures
        count_before(s, frame) <= s.len(),
        forall|k: int| 0 <= k < s.len() ==> (s[k].frame < frame <==> k < count_before(s, frame)),
    decreases s.len(),
{
    if s.len() > 0 {
        let t = s.drop_last();
        assert(frames_sorted(t));
        lemma_count_before(t, frame);
        assert forall|k: int| 0 <= k < s.len() implies (s[k].frame < frame <==> k < count_before(s, frame)) by {
            if k < s.len() - 1 {
                assert(t[k] == s[k]);
                if s.last().frame < frame {
                    assert(s[k].frame <= s.last().frame);
                }
            } else {
                if s.last().frame >= frame && count_before(t, frame) > 0 {
                    let c = count_before(t, frame) - 1;
                    assert(t[c].frame < frame);
                }
                if s.last().frame < frame {
                    assert forall|q: int| 0 <= q < t.len() implies t[q].frame < frame by {
                        assert(t[q].frame <= s.last().frame);
                    }
                    if count_before(t, frame) < t.len() {
                        let c = count_before(t, frame) as int;
                        assert(t[c].frame < frame);
                    }
                }
            }
        }
    }
}

pub proof fn lemma_count_before_monotone(s: Seq<TimedMidiEvent>, a: int, b: int)
    requires
        a <= b,
    ensures
        count_before(s, a) <= count_before(s, b),
    decreases s.len(),
{
    if s.len() > 0 {
        lemma_count_before_monotone(s.drop_last(), a, b);
    }
}

/// The entries with frames in `[start, end)`, as offsets from `start`.
pub open spec fn block_of(s: Seq<TimedMidiEvent>, start: int, end: int) -> Seq<BlockEvent> {
    let lo = count_before(s, start);
    let hi = count_before(s, end);
    Seq::new(
        (hi - lo) as nat,
        |k: int| BlockEvent { frame_offset: (s[lo + k].frame - start) as usize, event: s[lo + k].event },
    )
}

/// A file-driven timeline: events in stable frame order.
pub struct OfflineMidiReader {
    events: Vec<TimedMidiEvent>,
}

impl OfflineMidiReader {
    pub closed spec fn timeline(&self) -> Seq<TimedMidiEvent> {
        self.events@
    }

    pub open spec fn wf(&self) -> bool {
        strictly_sorted(self.timeline())
    }

    /// A timeline of the events with the given absolute frames.
    pub fn new(frames: &[u64]) -> (r: Self)
        ensures
            r.wf(),
            is_stable_order(frames@, r.timeline()),
    {
        OfflineMidiReader { events: stable_order(frames) }
    }

    pub fn events(&self) -> (e: &[TimedMidiEvent])
        ensures
            e@ == self.timeline(),
    {
        self.events.as_slice()
    }

    /// Entries with `frame_start <= frame < frame_end`, in timeline order.
    pub fn events_in_range(&self, frame_start: u64, frame_end: u64) -> (r: Vec<TimedMidiEvent>)
        requires
            self.wf(),
        ensures
            r@ == range_of(self.timeline(), frame_start as int, frame_end as int),
    {
        let lo = lower_bound(&self.events, frame_start);
        let hi = lower_bound(&self.events, frame_end);
        let hi = if hi < lo { lo } else { hi };
        let mut out: Vec<TimedMidiEvent> = Vec::new();
        let mut k: usize = lo;
        while k < hi
            invariant
                lo <= k <= hi <= self.events@.len(),
                out@ == self.events@.subrange(lo as int, k as int),
            decreases hi - k,
        {
            out.push(self.events[k]);
            proof {
                assert(self.events@.subrange(lo as int, k + 1) == self.events@.subrange(lo as int, k as int).push(
                    self.events@[k as int],
                ));
            }
            k = k + 1;
        }
        out
    }

    /// The events of the block of `block_size` frames starting at
    /// `frame_start`, with frame offsets inside the block.
    pub fn block_events(&self, frame_start: u64, block_size: usize) -> (r: Vec<BlockEvent>)
        requires
            self.wf(),
            frame_start + block_size <= u64::MAX,
        ensures
            r@ == block_of(self.timeline(), frame_start as int, frame_start + block_size),
    {
        let frame_end = frame_start + block_size as u64;
        let lo = lower_bound(&self.events, frame_start);
        let hi = lower_bound(&self.events, frame_end);
        proof {
            lemma_count_before_monotone(self.events@, frame_start as int, frame_end as int);
            lemma_sorted_frames(self.events@);
            lemma_count_before(self.events@, frame_start as int);
            lemma_count_before(self.events@, frame_end as int);
        }
        let mut out: Vec<BlockEvent> = Vec::new();
        let mut k: usize = lo;
        while k < hi
            invariant
                lo <= k <= hi <= self.events@.len(),
                lo == count_before(self.events@, frame_start as int),
                hi == count_before(self.events@, frame_end as int),
                frame_end == frame_start + block_size,
                forall|q: int| 0 <= q < self.events@.len() ==> (self.events@[q].frame < frame_start <==> q < lo),
                forall|q: int| 0 <= q < self.events@.len() ==> (self.events@[q].frame < frame_end <==> q < hi),
                out@.len() == k - lo,
                forall|q: int|
                    0 <= q < out@.len() ==> out@[q] == block_of(self.events@, frame_start as int, frame_end as int)[q],
            decreases hi - k,
        {
            let e = self.events[k];
            out.push(BlockEvent { frame_offset: (e.frame - frame_start) as usize, event: e.event });
            k = k + 1;
        }
        proof {
            assert(out@ =~= block_of(self.events@, frame_start as int, frame_end as int));
        }
        out
    }
}

/// Entries with frames in `[start, end)` of a frame-sorted timeline.
pub open spec fn range_of(s: Seq<TimedMidiEvent>, start: int, end: int) -> Seq<TimedMidiEvent> {
    let lo = count_before(s, start) as int;
    let hi = count_before(s, end) as int;
    s.subrange(lo, if hi < lo { lo } else { hi })
}

/// Position of the first entry at or after `frame`.
fn lower_bound(events: &Vec<TimedMidiEvent>, frame: u64) -> (r: usize)
    requires
        strictly_sorted(events@),
    ensures
        r == count_before(events@, frame as int),
        r <= events@.len(),
{
    proof {
        lemma_sorted_frames(events@);
        lemma_count_before(events@, frame as int);
    }
    let mut i: usize = 0;
    while i < events.len() && events[i].frame < frame
        invariant
            i <= events@.len(),
            i <= count_before(events@, frame as int),
            forall|k: int| 0 <= k < events@.len() ==> (events@[k].frame < frame <==> k < count_before(events@, frame as int)),
        decreases events@.len() - i,
    {
        i = i + 1;
    }
    i
}

proof fn lemma_sorted_frames(s: Seq<TimedMidiEvent>)
    requires
        strictly_sorted(s),
    ensures
        frames_sorted(s),
{
    assert forall|i: int, j: int| 0 <= i <= j < s.len() implies s[i].frame <= s[j].frame by {
        if i < j {
            assert(precedes(s[i], s[j]));
        }
    }
}


pub open spec fn shift(b: Seq<BlockEvent>, by: int) -> Seq<BlockEvent> {
    Seq::new(b.len(), |k: int| BlockEvent { frame_offset: (b[k].frame_offset + by) as usize, event: b[k].event })
}

/// Cutting a timeline into consecutive blocks loses and repeats nothing:
/// the block `[a, c)` is the block `[a, b)` followed by the block `[b, c)`
/// with its offsets moved by `b - a`, and every offset lies inside its block.
pub proof fn law_consecutive_blocks(s: Seq<TimedMidiEvent>, a: int, b: int, c: int)
    requires
        strictly_sorted(s),
        0 <= a <= b <= c,
        c - a <= usize::MAX,
    ensures
        block_of(s, a, c) == block_of(s, a, b) + shift(block_of(s, b, c), b - a),
        forall|k: int| 0 <= k < block_of(s, a, c).len() ==> (#[trigger] block_of(s, a, c)[k]).frame_offset < c - a,
{
    lemma_sorted_frames(s);
    lemma_count_before(s, a);
    lemma_count_before(s, b);
    lemma_count_before(s, c);
    lemma_count_before_monotone(s, a, b);
    lemma_count_before_monotone(s, b, c);
    let x = block_of(s, a, c);
    let y = block_of(s, a, b) + shift(block_of(s, b, c), b - a);
    let la = count_before(s, a) as int;
    let lb = count_before(s, b) as int;
    assert forall|k: int| 0 <= k < x.len() implies x[k] == y[k] by {
        let e = s[la + k];
        assert(a <= e.frame < c);
        if k < lb - la {
            assert(e.frame < b);
        } else {
            assert(e.frame >= b);
        }
    }
    assert(x =~= y);
    assert forall|k: int| 0 <= k < x.len() implies (#[trigger] x[k]).frame_offset < c - a by {
        let e = s[la + k];
        assert(a <= e.frame < c);
    }
}


// ---------------------------------------------------------------------------
// Looping pattern for regression runs
// ---------------------------------------------------------------------------

/// The pattern entries of loop cycle `c` (from entry `k` on) that fall in
/// `[start, end)`, as block events.
pub open spec fn cycle_part(p: Seq<TimedMidiEvent>, offset: int, start: int, end: int, k: int) -> Seq<BlockEvent>
    decreases p.len() - k,
{
    if k < 0 || k >= p.len() {
        seq![]
    } else {
        let at = offset + p[k].frame;
        let here: Seq<BlockEvent> = if start <= at < end {
            seq![BlockEvent { frame_offset: (at - start) as usize, event: p[k].event }]
        } else {
            seq![]
        };
        here + cycle_part(p, offset, start, end, k + 1)
    }
}

/// The events of cycles `c..=last` that fall in `[start, end)`, cycle by
/// cycle.
pub open spec fn cycles_from(p: Seq<TimedMidiEvent>, len: int, start: int, end: int, c: int, last: int) -> Seq<BlockEvent>
    decreases last + 1 - c,
{
    if c > last {
        seq![]
    } else {
        cycle_part(p, c * len, start, end, 0) + cycles_from(p, len, start, end, c + 1, last)
    }
}

/// The last frame of a block of `size` frames from `start`, or `start` for
/// an empty block (saturating subtraction).
pub open spec fn last_frame(start: int, size: int) -> int {
    if start + size == 0 {
        0
    } else {
        start + size - 1
    }
}

/// The block `[start, start + size)` of the looped pattern.
pub open spec fn loop_block(p: Seq<TimedMidiEvent>, len: int, start: int, size: int) -> Seq<BlockEvent> {
    cycles_from(p, len, start, start + size, start / len, last_frame(start, size) / len)
}

pub open spec fn offsets_sorted(b: Seq<BlockEvent>) -> bool {
    forall|i: int, j: int| 0 <= i <= j < b.len() ==> b[i].frame_offset <= b[j].frame_offset
}

/// A pattern of entries repeated every `loop_length_frames` frames.
#[derive(Debug, Clone)]
pub struct DeterministicMidiHarness {
    pattern: Vec<TimedMidiEvent>,
    loop_length_frames: u64,
}

impl DeterministicMidiHarness {
    pub closed spec fn pattern_view(&self) -> Seq<TimedMidiEvent> {
        self.pattern@
    }

    pub closed spec fn loop_length(&self) -> u64 {
        self.loop_length_frames
    }

    /// The pattern is in stable frame order and lies inside one loop.
    pub open spec fn wf(&self) -> bool {
        &&& self.loop_length() > 0
        &&& strictly_sorted(self.pattern_view())
        &&& forall|k: int| 0 <= k < self.pattern_view().len() ==> (#[trigger] self.pattern_view()[k]).frame
            < self.loop_length()
    }

    /// A harness looping the entries with the given frames every
    /// `loop_length_frames` frames. Each frame must lie inside the loop.
    pub fn new(frames: &[u64], loop_length_frames: u64) -> (h: Self)
        requires
            loop_length_frames > 0,
            forall|k: int| 0 <= k < frames@.len() ==> frames@[k] < loop_length_frames,
        ensures
            h.wf(),
            is_stable_order(frames@, h.pattern_view()),
            h.loop_length() == loop_length_frames,
    {
        let pattern = stable_order(frames);
        proof {
            assert forall|k: int| 0 <= k < pattern@.len() implies (#[trigger] pattern@[k]).frame < loop_length_frames by {
                assert(pattern@[k].frame == frames@[pattern@[k].event as int]);
            }
        }
        DeterministicMidiHarness { pattern, loop_length_frames }
    }

    /// `count` steps of `step_frames` frames each; entry `i` sits at frame
    /// `i * step_frames` and stands for the `i`-th pressure value.
    pub fn mpe_pressure_cycle(step_frames: u64, count: usize) -> (h: Self)
        requires
            step_frames > 0,
            count > 0,
            step_frames * count <= u64::MAX,
        ensures
            h.wf(),
            h.loop_length() == step_frames * count,
            h.pattern_view().len() == count,
            forall|i: int| 0 <= i < count ==> #[trigger] h.pattern_view()[i] == (TimedMidiEvent {
                frame: (i * step_frames) as u64,
                event: i as usize,
            }),
    {
        let mut frames: Vec<u64> = Vec::new();
        let mut i: usize = 0;
        while i < count
            invariant
                i <= count,
                step_frames > 0,
                step_frames * count <= u64::MAX,
                frames@.len() == i,
                forall|k: int| 0 <= k < i ==> frames@[k] == k * step_frames,
            decreases count - i,
        {
            proof {
                assert(i * step_frames < count * step_frames) by (nonlinear_arith)
                    requires
                        i < count,
                        step_frames > 0,
                ;
            }
            frames.push(i as u64 * step_frames);
            i = i + 1;
        }
        let total = step_frames * count as u64;
        proof {
            assert(total > 0) by (nonlinear_arith)
                requires
                    total == step_frames * count,
                    step_frames > 0,
                    count > 0,
            ;
            assert forall|k: int| 0 <= k < frames@.len() implies frames@[k] < total by {
                assert(k * step_frames < total) by (nonlinear_arith)
                    requires
                        0 <= k < count,
                        step_frames > 0,
                        total == step_frames * count,
                ;
            }
            assert forall|a: int, b: int| 0 <= a < b < frames@.len() implies frames@[a] < frames@[b] by {
                assert(a * step_frames < b * step_frames) by (nonlinear_arith)
                    requires
                        0 <= a < b,
                        step_frames > 0,
                ;
            }
        }
        let h = DeterministicMidiHarness::new(frames.as_slice(), total);
        proof {
            lemma_increasing_order(frames@, h.pattern_view());
        }
        h
    }

    /// Whether every looped frame the block `[frame_start, frame_start +
    /// block_size)` visits stays within `u64`.
    pub open spec fn block_fits(&self, frame_start: u64, block_size: usize) -> bool {
        &&& frame_start + block_size <= u64::MAX
        &&& self.pattern_view().len() > 0 ==> last_frame(frame_start as int, block_size as int)
            / (self.loop_length() as int) * self.loop_length() + self.pattern_view().last().frame
            <= u64::MAX
    }

    /// The events of the looped pattern in the block of `block_size` frames
    /// from `frame_start`, cycle by cycle, with offsets inside the block.
    pub fn events_for_block(&self, frame_start: u64, block_size: usize) -> (r: Vec<BlockEvent>)
        requires
            self.wf(),
            self.block_fits(frame_start, block_size),
        ensures
            r@ == loop_block(self.pattern_view(), self.loop_length() as int, frame_start as int, block_size as int),
            offsets_sorted(r@),
            forall|k: int| 0 <= k < r@.len() ==> (#[trigger] r@[k]).frame_offset < block_size,
    {
        let len = self.loop_length_frames;
        let frame_end = frame_start + block_size as u64;
        let first_cycle = frame_start / len;
        let last_cycle = if frame_end == 0 { 0 } else { frame_end - 1 } / len;
        let ghost p = self.pattern@;
        let ghost start = frame_start as int;
        let ghost end = frame_end as int;
        let mut events: Vec<BlockEvent> = Vec::new();
        let mut cycle: u64 = first_cycle;
        proof {
            lemma_sorted_frames(p);
            vstd::arithmetic::div_mod::lemma_fundamental_div_mod(last_frame(start, block_size as int), len as int);
            assert(last_cycle * len <= last_frame(start, block_size as int)) by (nonlinear_arith)
                requires
                    last_frame(start, block_size as int) == (len as int) * (last_frame(start, block_size as int) / (len as int))
                        + last_frame(start, block_size as int) % (len as int),
                    last_cycle == last_frame(start, block_size as int) / (len as int),
                    last_frame(start, block_size as int) % (len as int) >= 0,
            ;
            assert(first_cycle <= last_cycle + 1) by (nonlinear_arith)
                requires
                    first_cycle == frame_start / len,
                    last_cycle == last_frame(frame_start as int, block_size as int) / (len as int),
                    frame_end == frame_start + block_size,
                    len > 0,
            ;
        }
        while cycle <= last_cycle
            invariant
                self.wf(),
                self.block_fits(frame_start, block_size),
                p == self.pattern@,
                len == self.loop_length_frames,
                frame_end == frame_start + block_size,
                start == frame_start,
                end == frame_end,
                first_cycle == frame_start / len,
                last_cycle == last_frame(start, block_size as int) / (len as int),
                first_cycle <= cycle <= last_cycle + 1,
                last_cycle * len <= u64::MAX,
                frames_sorted(p),
                events@ + cycles_from(p, len as int, start, end, cycle as int, last_cycle as int)
                    == loop_block(p, len as int, start, block_size as int),
                offsets_sorted(events@),
                forall|k: int| 0 <= k < events@.len() ==> (#[trigger] events@[k]).frame_offset < block_size,
                forall|k: int| 0 <= k < events@.len() ==> (#[trigger] events@[k]).frame_offset + start < cycle * len,
            decreases last_cycle + 1 - cycle,
        {
            proof {
                assert(cycle * len <= last_cycle * len) by (nonlinear_arith)
                    requires
                        cycle <= last_cycle,
                ;
            }
            let cycle_offset = cycle * len;
            let ghost before = events@;
            let mut k: usize = 0;
            while k < self.pattern.len()
                invariant
                    self.wf(),
                    self.block_fits(frame_start, block_size),
                    p == self.pattern@,
                    len == self.loop_length_frames,
                    frame_end == frame_start + block_size,
                    start == frame_start,
                    end == frame_end,
                    cycle <= last_cycle,
                    last_cycle == last_frame(start, block_size as int) / (len as int),
                    cycle_offset == cycle * len,
                    cycle_offset <= last_cycle * len,
                    frames_sorted(p),
                    k <= p.len(),
                    k == 0 ==> events@.len() == before.len(),
                    events@.len() >= before.len(),
                    events@ + cycle_part(p, cycle_offset as int, start, end, k as int)
                        == before + cycle_part(p, cycle_offset as int, start, end, 0),
                    offsets_sorted(events@),
                    forall|q: int| 0 <= q < events@.len() ==> (#[trigger] events@[q]).frame_offset < block_size,
                    forall|q: int| 0 <= q < before.len() ==> (#[trigger] before[q]).frame_offset + start < cycle * len,
                    forall|q: int| 0 <= q < before.len() ==> events@[q] == before[q],
                    forall|q: int| before.len() <= q < events@.len() ==> (#[trigger] events@[q]).frame_offset + start
                        >= cycle * len,
                    forall|q: int| before.len() <= q < events@.len() ==> (#[trigger] events@[q]).frame_offset + start
                        < (cycle + 1) * len,
                    k > 0 && events@.len() > before.len() ==> events@.last().frame_offset + start <= cycle_offset
                        + p[k - 1].frame,
                decreases p.len() - k,
            {
                let timed = self.pattern[k];
                proof {
                    assert(timed.frame <= p.last().frame);
                    assert(timed.frame < len);
                }
                let absolute_frame = cycle_offset + timed.frame;
                let ghost ev0 = events@;
                if absolute_frame >= frame_start && absolute_frame < frame_end {
                    events.push(BlockEvent { frame_offset: (absolute_frame - frame_start) as usize, event: timed.event });
                    proof {
                        assert forall|a: int, b: int| 0 <= a <= b < events@.len() implies events@[a].frame_offset
                            <= events@[b].frame_offset by {
                            if b == events@.len() - 1 && a < b {
                                if a < before.len() {
                                    assert(before[a].frame_offset + start < cycle * len);
                                } else {
                                    assert(ev0.last().frame_offset + start <= cycle_offset + p[k - 1].frame);
                                    assert(p[k - 1].frame <= p[k as int].frame);
                                    assert(events@[a].frame_offset <= ev0.last().frame_offset) by {
                                        assert(events@[a] == ev0[a]);
                                    }
                                }
                            } else if b < events@.len() - 1 {
                                assert(events@[a] == ev0[a] && events@[b] == ev0[b]);
                            }
                        }
                        assert(cycle_offset + timed.frame < (cycle + 1) * len) by (nonlinear_arith)
                            requires
                                cycle_offset == cycle * len,
                                timed.frame < len,
                        ;
                    }
                }
                proof {
                    assert(cycle_part(p, cycle_offset as int, start, end, k as int) == (if start <= absolute_frame < end {
                        seq![BlockEvent { frame_offset: (absolute_frame - start) as usize, event: timed.event }]
                    } else {
                        seq![]
                    }) + cycle_part(p, cycle_offset as int, start, end, k + 1));
                }
                k = k + 1;
            }
            proof {
                assert forall|q: int| 0 <= q < events@.len() implies (#[trigger] events@[q]).frame_offset + start < (
                cycle + 1) * len by {
                    if q < before.len() {
                        assert(events@[q] == before[q]);
                        assert(before[q].frame_offset + start < cycle * len);
                        assert(cycle * len < (cycle + 1) * len) by (nonlinear_arith)
                            requires
                                len > 0,
                        ;
                    }
                }
                assert(cycles_from(p, len as int, start, end, cycle as int, last_cycle as int) == cycle_part(
                    p,
                    cycle_offset as int,
                    start,
                    end,
                    0,
                ) + cycles_from(p, len as int, start, end, cycle + 1, last_cycle as int));
                assert(events@ == before + cycle_part(p, cycle_offset as int, start, end, 0));
            }
            cycle = cycle + 1;
        }
        proof {
            assert(cycles_from(p, len as int, start, end, cycle as int, last_cycle as int) == Seq::<BlockEvent>::empty());
        }
        events
    }
}

/// Entries whose frames increase with their position keep their order.
proof fn lemma_increasing_order(frames: Seq<u64>, s: Seq<TimedMidiEvent>)
    requires
        is_stable_order(frames, s),
        forall|i: int, j: int| 0 <= i < j < frames.len() ==> frames[i] < frames[j],
    ensures
        forall|i: int| 0 <= i < s.len() ==> #[trigger] s[i] == (TimedMidiEvent { frame: frames[i], event: i as usize }),
{
    assert forall|i: int| 0 <= i < s.len() implies #[trigger] s[i] == (TimedMidiEvent {
        frame: frames[i],
        event: i as usize,
    }) by {
        lemma_position_of(frames, s, i);
    }
}

/// In the stable order of strictly increasing frames, entry `i` is at
/// position `i`.
proof fn lemma_position_of(frames: Seq<u64>, s: Seq<TimedMidiEvent>, i: int)
    requires
        is_stable_order(frames, s),
        forall|a: int, b: int| 0 <= a < b < frames.len() ==> frames[a] < frames[b],
        0 <= i < s.len(),
    ensures
        s[i].event == i,
{
    // The events of positions 0..=i are i+1 distinct indices in increasing
    // order; likewise for positions i..len.
    lemma_events_increase(frames, s);
    lemma_events_bounded(s, i);
}

proof fn lemma_events_increase(frames: Seq<u64>, s: Seq<TimedMidiEvent>)
    requires
        is_stable_order(frames, s),
        forall|a: int, b: int| 0 <= a < b < frames.len() ==> frames[a] < frames[b],
    ensures
        forall|a: int, b: int| 0 <= a < b < s.len() ==> s[a].event < s[b].event,
        forall|a: int| 0 <= a < s.len() ==> s[a].event < s.len(),
{
    assert forall|a: int, b: int| 0 <= a < b < s.len() implies s[a].event < s[b].event by {
        assert(precedes(s[a], s[b]));
        let ea = s[a].event as int;
        let eb = s[b].event as int;
        assert(s[a].frame == frames[ea]);
        assert(s[b].frame == frames[eb]);
        if eb < ea {
            assert(frames[eb] < frames[ea]);
        }
    }
    assert forall|a: int| 0 <= a < s.len() implies s[a].event < s.len() by {
        assert(s[a].event < frames.len());
    }
}

/// A strictly increasing sequence of `n` indices below `n` is `0..n`.
proof fn lemma_events_bounded(s: Seq<TimedMidiEvent>, i: int)
    requires
        forall|a: int, b: int| 0 <= a < b < s.len() ==> s[a].event < s[b].event,
        forall|a: int| 0 <= a < s.len() ==> s[a].event < s.len(),
        0 <= i < s.len(),
    ensures
        s[i].event == i,
{
    lemma_events_lower(s, i);
    lemma_events_upper(s, i);
}

proof fn lemma_events_lower(s: Seq<TimedMidiEvent>, i: int)
    requires
        forall|a: int, b: int| 0 <= a < b < s.len() ==> s[a].event < s[b].event,
        0 <= i < s.len(),
    ensures
        s[i].event >= i,
    decreases i,
{
    if i > 0 {
        lemma_events_lower(s, i - 1);
    }
}

proof fn lemma_events_upper(s: Seq<TimedMidiEvent>, i: int)
    requires
        forall|a: int, b: int| 0 <= a < b < s.len() ==> s[a].event < s[b].event,
        forall|a: int| 0 <= a < s.len() ==> s[a].event < s.len(),
        0 <= i < s.len(),
    ensures
        s[i].event <= i,
    decreases s.len() - i,
{
    if i < s.len() - 1 {
        lemma_events_upper(s, i + 1);
    }
}

/// The looped pattern repeats: the block one loop later holds the same
/// events at the same offsets (an empty block holds none either way).
pub proof fn law_loop_repeats(p: Seq<TimedMidiEvent>, len: int, start: int, size: int)
    requires
        len > 0,
        start >= 0,
        size >= 0,
    ensures
        loop_block(p, len, start + len, size) == loop_block(p, len, start, size),
{
    if size == 0 {
        lemma_cycles_empty(p, len, start + len, start / len + 1, last_frame(start + len, 0) / len);
        lemma_cycles_empty(p, len, start, start / len, last_frame(start, 0) / len);
        vstd::arithmetic::div_mod::lemma_fundamental_div_mod(start, len);
        let q = start / len;
        let r = start % len;
        assert(start + len == (q + 1) * len + r) by (nonlinear_arith)
            requires
                start == len * q + r,
        ;
        vstd::arithmetic::div_mod::lemma_fundamental_div_mod_converse(start + len, len, q + 1, r);
    } else {
        lemma_loop_repeats_nonempty(p, len, start, size);
    }
}

proof fn lemma_loop_repeats_nonempty(p: Seq<TimedMidiEvent>, len: int, start: int, size: int)
    requires
        len > 0,
        start >= 0,
        size >= 1,
    ensures
        loop_block(p, len, start + len, size) == loop_block(p, len, start, size),
{
    let first = start / len;
    let last = (start + size - 1) / len;
    vstd::arithmetic::div_mod::lemma_fundamental_div_mod(start, len);
    let r1 = start % len;
    assert(start + len == (first + 1) * len + r1) by (nonlinear_arith)
        requires
            start == len * first + r1,
    ;
    vstd::arithmetic::div_mod::lemma_fundamental_div_mod_converse(start + len, len, first + 1, r1);
    vstd::arithmetic::div_mod::lemma_fundamental_div_mod(start + size - 1, len);
    let r2 = (start + size - 1) % len;
    assert(start + len + size - 1 == (last + 1) * len + r2) by (nonlinear_arith)
        requires
            start + size - 1 == len * last + r2,
    ;
    vstd::arithmetic::div_mod::lemma_fundamental_div_mod_converse(start + len + size - 1, len, last + 1, r2);
    lemma_cycles_shift(p, len, start, start + size, first, last);
}

/// Entry `j` of the pattern, in loop cycle `k`, as an event of the block
/// from `start`.
pub open spec fn placed(p: Seq<TimedMidiEvent>, len: int, start: int, k: int, j: int) -> BlockEvent {
    BlockEvent { frame_offset: (k * len + p[j].frame - start) as usize, event: p[j].event }
}

/// The looped block holds exactly the pattern entries that some loop cycle
/// places inside it: an event is in the block from `start` of `size` frames
/// iff for some cycle `k >= 0` and entry `j`, `start <= k * len + frame_j <
/// start + size` and the event is entry `j` at offset `k * len + frame_j -
/// start`.
pub proof fn law_loop_block_members(p: Seq<TimedMidiEvent>, len: int, start: int, size: int, x: BlockEvent)
    requires
        len > 0,
        start >= 0,
        size >= 0,
        forall|j: int| 0 <= j < p.len() ==> (#[trigger] p[j]).frame < len,
    ensures
        loop_block(p, len, start, size).contains(x) <==> exists|k: int, j: int|
            k >= 0 && 0 <= j < p.len() && start <= k * len + p[j].frame < start + size && x == #[trigger] placed(
                p,
                len,
                start,
                k,
                j,
            ),
{
    let end = start + size;
    let first = start / len;
    let last = last_frame(start, size) / len;
    vstd::arithmetic::div_mod::lemma_fundamental_div_mod(start, len);
    vstd::arithmetic::div_mod::lemma_fundamental_div_mod(last_frame(start, size), len);
    lemma_cycles_members(p, len, start, end, first, last, x);
    if loop_block(p, len, start, size).contains(x) {
        let k = choose|k: int| first <= k <= last && #[trigger] cycle_part(p, k * len, start, end, 0).contains(x);
        lemma_part_members(p, k * len, start, end, 0, x);
        let j = choose|j: int|
            0 <= j < p.len() && start <= k * len + p[j].frame < end && x == #[trigger] shifted(p, k * len, start, j);
        assert(first >= 0) by (nonlinear_arith)
            requires
                start >= 0,
                len > 0,
                first == start / len,
        ;
        assert(x == placed(p, len, start, k, j));
    }
    if exists|k: int, j: int|
        k >= 0 && 0 <= j < p.len() && start <= k * len + p[j].frame < start + size && x == #[trigger] placed(
            p,
            len,
            start,
            k,
            j,
        ) {
        let (k, j) = choose|k: int, j: int|
            k >= 0 && 0 <= j < p.len() && start <= k * len + p[j].frame < start + size && x == #[trigger] placed(
                p,
                len,
                start,
                k,
                j,
            );
        let f = p[j].frame as int;
        assert(0 <= f < len);
        let r1 = start % len;
        let lf = last_frame(start, size);
        assert(lf == start + size - 1);
        let r2 = lf % len;
        assert(first <= k) by (nonlinear_arith)
            requires
                start == len * first + r1,
                0 <= r1 < len,
                start <= k * len + f,
                f < len,
                len > 0,
        ;
        assert(k <= last) by (nonlinear_arith)
            requires
                lf == len * last + r2,
                0 <= r2 < len,
                k * len + f <= lf,
                f >= 0,
                len > 0,
        ;
        lemma_part_members(p, k * len, start, end, 0, x);
        assert(x == shifted(p, k * len, start, j));
        assert(cycle_part(p, k * len, start, end, 0).contains(x));
    }
}

/// Entry `j` shifted by `offset`, as an event of the block from `start`.
pub open spec fn shifted(p: Seq<TimedMidiEvent>, offset: int, start: int, j: int) -> BlockEvent {
    BlockEvent { frame_offset: (offset + p[j].frame - start) as usize, event: p[j].event }
}

/// `(a + b)` holds exactly what `a` or `b` holds.
proof fn lemma_concat_contains(a: Seq<BlockEvent>, b: Seq<BlockEvent>, x: BlockEvent)
    ensures
        (a + b).contains(x) <==> a.contains(x) || b.contains(x),
{
    if (a + b).contains(x) {
        let i = choose|i: int| 0 <= i < (a + b).len() && (a + b)[i] == x;
        if i >= a.len() {
            assert(b[i - a.len()] == x);
        }
    }
    if a.contains(x) {
        let i = choose|i: int| 0 <= i < a.len() && a[i] == x;
        assert((a + b)[i] == x);
    }
    if b.contains(x) {
        let i = choose|i: int| 0 <= i < b.len() && b[i] == x;
        assert((a + b)[a.len() + i] == x);
    }
}

proof fn lemma_part_members(p: Seq<TimedMidiEvent>, offset: int, start: int, end: int, k: int, x: BlockEvent)
    requires
        k >= 0,
    ensures
        cycle_part(p, offset, start, end, k).contains(x) <==> exists|j: int|
            k <= j < p.len() && start <= offset + p[j].frame < end && x == #[trigger] shifted(p, offset, start, j),
    decreases p.len() - k,
{
    if k < p.len() {
        lemma_part_members(p, offset, start, end, k + 1, x);
        let at = offset + p[k].frame;
        let here: Seq<BlockEvent> = if start <= at < end {
            seq![BlockEvent { frame_offset: (at - start) as usize, event: p[k].event }]
        } else {
            seq![]
        };
        let rest = cycle_part(p, offset, start, end, k + 1);
        lemma_concat_contains(here, rest, x);
        assert(cycle_part(p, offset, start, end, k) == here + rest);
        if cycle_part(p, offset, start, end, k).contains(x) {
            if here.contains(x) {
                assert(here[0] == x);
                assert(x == shifted(p, offset, start, k));
            } else {
                let j = choose|j: int|
                    k + 1 <= j < p.len() && start <= offset + p[j].frame < end && x == #[trigger] shifted(p, offset, start, j);
            }
        }
        if exists|j: int|
            k <= j < p.len() && start <= offset + p[j].frame < end && x == #[trigger] shifted(p, offset, start, j) {
            let j = choose|j: int|
                k <= j < p.len() && start <= offset + p[j].frame < end && x == #[trigger] shifted(p, offset, start, j);
            if j == k {
                assert(here[0] == x);
                assert(here.contains(x));
            } else {
                assert(rest.contains(x));
            }
        }
    } else {
        assert(cycle_part(p, offset, start, end, k) =~= Seq::<BlockEvent>::empty());
    }
}

proof fn lemma_cycles_members(
    p: Seq<TimedMidiEvent>,
    len: int,
    start: int,
    end: int,
    c: int,
    last: int,
    x: BlockEvent,
)
    ensures
        cycles_from(p, len, start, end, c, last).contains(x) <==> exists|k: int|
            c <= k <= last && #[trigger] cycle_part(p, k * len, start, end, 0).contains(x),
    decreases last + 1 - c,
{
    if c <= last {
        lemma_cycles_members(p, len, start, end, c + 1, last, x);
        lemma_concat_contains(cycle_part(p, c * len, start, end, 0), cycles_from(p, len, start, end, c + 1, last), x);
    } else {
        assert(cycles_from(p, len, start, end, c, last) =~= Seq::<BlockEvent>::empty());
    }
}

/// No pattern entry falls in an empty range.
proof fn lemma_cycles_empty(p: Seq<TimedMidiEvent>, len: int, start: int, c: int, last: int)
    ensures
        cycles_from(p, len, start, start, c, last) == Seq::<BlockEvent>::empty(),
    decreases last + 1 - c,
{
    if c <= last {
        lemma_cycles_empty(p, len, start, c + 1, last);
        lemma_part_empty(p, c * len, start, 0);
        assert(cycle_part(p, c * len, start, start, 0) + Seq::<BlockEvent>::empty() =~= Seq::<BlockEvent>::empty());
    }
}

proof fn lemma_part_empty(p: Seq<TimedMidiEvent>, offset: int, start: int, k: int)
    ensures
        cycle_part(p, offset, start, start, k) == Seq::<BlockEvent>::empty(),
    decreases p.len() - k,
{
    if 0 <= k < p.len() {
        lemma_part_empty(p, offset, start, k + 1);
        assert(Seq::<BlockEvent>::empty() + cycle_part(p, offset, start, start, k + 1) =~= Seq::<BlockEvent>::empty());
    }
}

proof fn lemma_cycles_shift(p: Seq<TimedMidiEvent>, len: int, start: int, end: int, c: int, last: int)
    ensures
        cycles_from(p, len, start + len, end + len, c + 1, last + 1) == cycles_from(p, len, start, end, c, last),
    decreases last + 1 - c,
{
    if c <= last {
        lemma_cycles_shift(p, len, start, end, c + 1, last);
        assert((c + 1) * len == c * len + len) by (nonlinear_arith);
        lemma_part_shift(p, c * len, len, start, end, 0);
    }
}

proof fn lemma_part_shift(p: Seq<TimedMidiEvent>, offset: int, len: int, start: int, end: int, k: int)
    ensures
        cycle_part(p, offset + len, start + len, end + len, k) == cycle_part(p, offset, start, end, k),
    decreases p.len() - k,
{
    if 0 <= k < p.len() {
        lemma_part_shift(p, offset, len, start, end, k + 1);
    }
}

} // verus!
