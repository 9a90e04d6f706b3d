//! Standard MIDI Files: midly splits a file into tracks of events and
//! writes out each channel message whole; this module follows each track's
//! tick count, decodes its channel messages, gathers its tempo changes into
//! a tempo map, and lists the tempo spans that make up a tick's time. Seconds and frames are
//! products with the sample rate, computed by the host in floating point.

use vstd::prelude::*;
use vstd::string::StringExecFns;
use midly::{MetaMessage, Smf, Timing, TrackEventKind};
use crate::midi::{decode, parse_midi_bytes, MidiEventKind};
use crate::timeline::{is_stable_order, stable_order, TimedMidiEvent};

verus! {

/// One track event as midly hands it out: its delta time, its tempo where
/// it is a tempo meta event, and, where it is a channel message (or a whole
/// SysEx), the complete message as midly writes it for the wire (status byte
/// included, running status resolved); empty for other events.
#[derive(Debug, Clone)]
pub struct RawSmfEvent {
    pub delta: u32,
    pub tempo: Option<u32>,
    pub message: Vec<u8>,
}

/// A file split into tracks; `ticks_per_quarter` is `None` for SMPTE
/// timecode timing.
#[derive(Debug, Clone)]
pub struct RawSmf {
    pub ticks_per_quarter: Option<u16>,
    pub tracks: Vec<Vec<RawSmfEvent>>,
}

pub struct RawSmfEventView {
    pub delta: u32,
    pub tempo: Option<u32>,
    pub message: Seq<u8>,
}

pub struct RawSmfView {
    pub ticks_per_quarter: Option<u16>,
    pub tracks: Seq<Seq<RawSmfEventView>>,
}

pub open spec fn raw_event_view(e: RawSmfEvent) -> RawSmfEventView {
    RawSmfEventView { delta: e.delta, tempo: e.tempo, message: e.message@ }
}

pub open spec fn raw_track_view(t: Vec<RawSmfEvent>) -> Seq<RawSmfEventView> {
    Seq::new(t@.len(), |i: int| raw_event_view(t@[i]))
}

pub open spec fn raw_smf_view(s: RawSmf) -> RawSmfView {
    RawSmfView {
        ticks_per_quarter: s.ticks_per_quarter,
        tracks: Seq::new(s.tracks@.len(), |t: int| raw_track_view(s.tracks@[t])),
    }
}

/// What midly reads from the bytes of a file: its tracks, or the text of
/// its error.
pub uninterp spec fn smf_reading(data: Seq<u8>) -> Result<RawSmfView, Seq<char>>;

/// `midly::Smf::parse`, with the header timing, each event's delta and
/// tempo meta value copied out, each event that `TrackEventKind::as_live_event`
/// turns into a live event written out by `LiveEvent::write_std`, and the
/// error rendered with its `Display`. The contract claims only that the
/// result is a function of the bytes.
#[verifier::external_body]
fn read_smf(data: &[u8]) -> (r: Result<RawSmf, String>)
    ensures
        match smf_reading(data@) {
            Ok(v) => r matches Ok(s) && raw_smf_view(s) == v,
            Err(m) => r matches Err(e) && e@ == m,
        },
{
    let smf = Smf::parse(data).map_err(|e| e.to_string())?;
    let ticks_per_quarter = match smf.header.timing {
        Timing::Metrical(t) => Some(t.as_int()),
        Timing::Timecode(..) => None,
    };
    let tracks = smf.tracks.iter().map(|track| track.iter().map(|e| {
        let mut message = Vec::new();
        if let Some(live) = e.kind.as_live_event() { live.write_std(&mut message).ok(); }
        let tempo = match e.kind {
            TrackEventKind::Meta(MetaMessage::Tempo(t)) => Some(t.as_int()),
            _ => None,
        };
        RawSmfEvent { delta: e.delta.as_int(), tempo, message }
    }).collect()).collect();
    Ok(RawSmf { ticks_per_quarter, tracks })
}

// ---------------------------------------------------------------------------
// Decoding tracks
// ---------------------------------------------------------------------------

/// The channel message an event carries, if any.
pub open spec fn event_message(message: Seq<u8>) -> Option<MidiEventKind> {
    match decode(message, 0) {
        Some(e) => Some(e.kind),
        None => None,
    }
}

/// A channel message at an absolute tick.
#[derive(Debug, Clone, Copy, PartialEq, Eq, Structural)]
pub struct SmfTimedEvent {
    pub tick: u64,
    pub kind: MidiEventKind,
}

/// The channel messages of events `i..` of a track, given the tick before
/// event `i`.
pub open spec fn messages_from(track: Seq<RawSmfEventView>, i: int, tick: int) -> Seq<SmfTimedEvent>
    decreases track.len() - i,
{
    if i < 0 || i >= track.len() {
        seq![]
    } else {
        let e = track[i];
        let t = tick + e.delta;
        let here: Seq<SmfTimedEvent> = match event_message(e.message) {
            Some(k) => seq![SmfTimedEvent { tick: t as u64, kind: k }],
            None => seq![],
        };
        here + messages_from(track, i + 1, t)
    }
}

/// The tempo changes of events `i..` of a track, as (tick, microseconds per
/// quarter note).
pub open spec fn tempos_from(track: Seq<RawSmfEventView>, i: int, tick: int) -> Seq<(u64, u32)>
    decreases track.len() - i,
{
    if i < 0 || i >= track.len() {
        seq![]
    } else {
        let e = track[i];
        let t = tick + e.delta;
        let here: Seq<(u64, u32)> = match e.tempo {
            Some(v) => seq![(t as u64, v)],
            None => seq![],
        };
        here + tempos_from(track, i + 1, t)
    }
}

/// Sum of the deltas of events `0..n`: the tick of event `n - 1`.
pub open spec fn ticks_through(track: Seq<RawSmfEventView>, n: int) -> int
    decreases n,
{
    if n <= 0 || n > track.len() {
        0
    } else {
        ticks_through(track, n - 1) + track[n - 1].delta
    }
}

/// Every track's ticks stay within `u64`.
pub open spec fn ticks_fit(s: RawSmfView) -> bool {
    forall|t: int| 0 <= t < s.tracks.len() ==> ticks_through(#[trigger] s.tracks[t], s.tracks[t].len() as int)
        <= u64::MAX
}

/// Messages of tracks `t..`, track by track.
pub open spec fn all_messages(tracks: Seq<Seq<RawSmfEventView>>, t: int) -> Seq<SmfTimedEvent>
    decreases tracks.len() - t,
{
    if t < 0 || t >= tracks.len() {
        seq![]
    } else {
        messages_from(tracks[t], 0, 0) + all_messages(tracks, t + 1)
    }
}

/// Tempo changes of tracks `t..`, track by track.
pub open spec fn all_tempos(tracks: Seq<Seq<RawSmfEventView>>, t: int) -> Seq<(u64, u32)>
    decreases tracks.len() - t,
{
    if t < 0 || t >= tracks.len() {
        seq![]
    } else {
        tempos_from(tracks[t], 0, 0) + all_tempos(tracks, t + 1)
    }
}

proof fn lemma_ticks_monotone(track: Seq<RawSmfEventView>, a: int, b: int)
    requires
        0 <= a <= b <= track.len(),
    ensures
        ticks_through(track, a) <= ticks_through(track, b),
    decreases b - a,
{
    if a < b {
        lemma_ticks_monotone(track, a, b - 1);
    }
}

fn track_messages(track: &Vec<RawSmfEvent>, out: &mut Vec<SmfTimedEvent>, tempos: &mut Vec<(u64, u32)>)
    requires
        ticks_through(raw_track_view(*track), track@.len() as int) <= u64::MAX,
    ensures
        final(out)@ == old(out)@ + messages_from(raw_track_view(*track), 0, 0),
        final(tempos)@ == old(tempos)@ + tempos_from(raw_track_view(*track), 0, 0),
{
    let ghost tv = raw_track_view(*track);
    let mut tick: u64 = 0;
    let mut i: usize = 0;
    while i < track.len()
        invariant
            i <= track@.len(),
            tv == raw_track_view(*track),
            ticks_through(tv, track@.len() as int) <= u64::MAX,
            tick == ticks_through(tv, i as int),
            out@ + messages_from(tv, i as int, tick as int) == old(out)@ + messages_from(tv, 0, 0),
            tempos@ + tempos_from(tv, i as int, tick as int) == old(tempos)@ + tempos_from(tv, 0, 0),
        decreases track@.len() - i,
    {
        let e = &track[i];
        proof {
            assert(tv[i as int] == raw_event_view(track@[i as int]));
            lemma_ticks_monotone(tv, i + 1, track@.len() as int);
        }
        let t = tick + e.delta as u64;
        let message: Option<MidiEventKind> = match parse_midi_bytes(e.message.as_slice(), 0) {
            Some(ev) => Some(ev.kind),
            None => None,
        };
        let ghost out0 = out@;
        let ghost tempos0 = tempos@;
        match message {
            Some(kind) => {
                out.push(SmfTimedEvent { tick: t, kind });
            },
            None => {},
        }
        match e.tempo {
            Some(v) => {
                tempos.push((t, v));
            },
            None => {},
        }
        proof {
            assert(event_message(tv[i as int].message) == message);
            assert(messages_from(tv, i as int, tick as int) == (match message {
                Some(k) => seq![SmfTimedEvent { tick: t, kind: k }],
                None => Seq::<SmfTimedEvent>::empty(),
            }) + messages_from(tv, i + 1, t as int));
            assert(tempos_from(tv, i as int, tick as int) == (match e.tempo {
                Some(v) => seq![(t, v)],
                None => Seq::<(u64, u32)>::empty(),
            }) + tempos_from(tv, i + 1, t as int));
            assert(out@ + messages_from(tv, i + 1, t as int) =~= out0 + messages_from(tv, i as int, tick as int));
            assert(tempos@ + tempos_from(tv, i + 1, t as int) =~= tempos0 + tempos_from(tv, i as int, tick as int));
        }
        tick = t;
        i = i + 1;
    }
    proof {
        assert(messages_from(tv, i as int, tick as int) == Seq::<SmfTimedEvent>::empty());
        assert(tempos_from(tv, i as int, tick as int) == Seq::<(u64, u32)>::empty());
    }
}

// ---------------------------------------------------------------------------
// Tempo map
// ---------------------------------------------------------------------------

/// Microseconds per quarter note before any tempo change (120 BPM).
pub const DEFAULT_TEMPO: u32 = 500_000;

pub open spec fn change_ticks(c: Seq<(u64, u32)>) -> Seq<u64> {
    Seq::new(c.len(), |i: int| c[i].0)
}

/// Keeps the first of each run of changes at one tick.
pub open spec fn first_per_tick(s: Seq<(u64, u32)>) -> Seq<(u64, u32)>
    decreases s.len(),
{
    if s.len() == 0 {
        seq![]
    } else if s.len() >= 2 && s.last().0 == s[s.len() - 2].0 {
        first_per_tick(s.drop_last())
    } else {
        first_per_tick(s.drop_last()).push(s.last())
    }
}

/// The changes of a file followed by the default tempo at tick zero.
pub open spec fn with_default(changes: Seq<(u64, u32)>) -> Seq<(u64, u32)> {
    changes.push((0u64, DEFAULT_TEMPO))
}

/// The tempo map of a list of changes: the changes stably sorted by tick,
/// keeping the first at each tick, and the default tempo at tick zero
/// unless the file sets a tempo there (the default comes after the file's
/// changes, so a change at tick zero replaces it).
pub open spec fn is_tempo_map_of(changes: Seq<(u64, u32)>, map: Seq<(u64, u32)>) -> bool {
    let all = with_default(changes);
    exists|order: Seq<TimedMidiEvent>|
        #![trigger is_stable_order(change_ticks(all), order)]
        is_stable_order(change_ticks(all), order) && map == first_per_tick(
            Seq::new(order.len(), |k: int| all[order[k].event as int]),
        )
}

pub open spec fn ticks_increasing(map: Seq<(u64, u32)>) -> bool {
    forall|i: int, j: int| 0 <= i < j < map.len() ==> map[i].0 < map[j].0
}

proof fn lemma_first_per_tick(s: Seq<(u64, u32)>)
    requires
        forall|i: int, j: int| 0 <= i <= j < s.len() ==> s[i].0 <= s[j].0,
    ensures
        ticks_increasing(first_per_tick(s)),
        first_per_tick(s).len() <= s.len(),
        s.len() > 0 ==> first_per_tick(s).len() > 0 && first_per_tick(s)[0] == s[0],
        s.len() > 0 ==> first_per_tick(s).last().0 == s.last().0,
    decreases s.len(),
{
    if s.len() > 0 {
        let t = s.drop_last();
        lemma_first_per_tick(t);
        if s.len() >= 2 && s.last().0 == s[s.len() - 2].0 {
        } else if s.len() >= 2 {
            assert(t.last().0 <= s.last().0);
        }
    }
}

fn tempo_map(changes: &Vec<(u64, u32)>) -> (map: Vec<(u64, u32)>)
    ensures
        is_tempo_map_of(changes@, map@),
        ticks_increasing(map@),
        map@.len() >= 1,
        map@[0].0 == 0,
{
    let mut all: Vec<(u64, u32)> = Vec::new();
    let mut ticks: Vec<u64> = Vec::new();
    let mut i: usize = 0;
    while i < changes.len()
        invariant
            i <= changes@.len(),
            all@ == changes@.subrange(0, i as int),
            ticks@ == change_ticks(all@),
        decreases changes@.len() - i,
    {
        all.push(changes[i]);
        ticks.push(changes[i].0);
        proof {
            assert(changes@.subrange(0, i + 1) == changes@.subrange(0, i as int).push(changes@[i as int]));
            assert(ticks@ =~= change_ticks(all@));
        }
        i = i + 1;
    }
    all.push((0, DEFAULT_TEMPO));
    ticks.push(0);
    proof {
        assert(changes@.subrange(0, i as int) == changes@);
        assert(all@ == with_default(changes@));
        assert(ticks@ =~= change_ticks(all@));
    }
    let order = stable_order(ticks.as_slice());
    let ghost sorted = Seq::new(order@.len(), |k: int| all@[order@[k].event as int]);
    let mut map: Vec<(u64, u32)> = Vec::new();
    let mut k: usize = 0;
    proof {
        assert forall|a: int, b: int| 0 <= a <= b < sorted.len() implies sorted[a].0 <= sorted[b].0 by {
            if a < b {
                assert(crate::timeline::precedes(order@[a], order@[b]));
            }
        }
        lemma_first_per_tick(sorted);
        assert(sorted.len() == all@.len());
        lemma_zero_first(ticks@, order@);
    }
    while k < order.len()
        invariant
            k <= order@.len(),
            is_stable_order(ticks@, order@),
            ticks@ == change_ticks(all@),
            sorted == Seq::new(order@.len(), |q: int| all@[order@[q].event as int]),
            map@ == first_per_tick(sorted.subrange(0, k as int)),
        decreases order@.len() - k,
    {
        let e = order[k].event;
        proof {
            assert(order@[k as int].event < ticks@.len());
        }
        let entry = all[e];
        let ghost pre = sorted.subrange(0, k as int);
        let ghost next = sorted.subrange(0, k + 1);
        proof {
            assert(next.drop_last() == pre);
            assert(next.last() == entry);
        }
        let keep = if k == 0 {
            true
        } else {
            proof {
                lemma_last_tick(pre);
            }
            map[map.len() - 1].0 != entry.0
        };
        if keep {
            proof {
                if k > 0 {
                    lemma_last_tick(pre);
                    assert(pre.last() == next[next.len() - 2]);
                }
            }
            map.push(entry);
        } else {
            proof {
                lemma_last_tick(pre);
                assert(pre.last() == next[next.len() - 2]);
            }
        }
        k = k + 1;
    }
    proof {
        assert(sorted.subrange(0, k as int) == sorted);
        assert(map@[0] == sorted[0]);
        assert(sorted[0] == all@[order@[0].event as int]);
        assert(is_tempo_map_of(changes@, map@)) by {
            assert(is_stable_order(change_ticks(with_default(changes@)), order@));
        }
    }
    map
}

/// The last kept change has the tick of the last change.
proof fn lemma_last_tick(s: Seq<(u64, u32)>)
    requires
        s.len() > 0,
    ensures
        first_per_tick(s).len() > 0,
        first_per_tick(s).last().0 == s.last().0,
    decreases s.len(),
{
    if s.len() >= 2 && s.last().0 == s[s.len() - 2].0 {
        lemma_last_tick(s.drop_last());
    }
}

/// The stable tick order starts at tick zero when some entry has tick zero
/// (here the last one, the default).
proof fn lemma_zero_first(ticks: Seq<u64>, order: Seq<TimedMidiEvent>)
    requires
        ticks.len() >= 1,
        ticks.last() == 0,
        is_stable_order(ticks, order),
    ensures
        order[0].frame == 0,
{
    assert(crate::timeline::has_event(order, ticks.len() - 1));
    let k = choose|k: int| 0 <= k < order.len() && order[k].event == ticks.len() - 1;
    assert(order[k].frame == ticks[order[k].event as int]);
    if k > 0 {
        assert(crate::timeline::precedes(order[0], order[k]));
    }
}

// ---------------------------------------------------------------------------
// Tempo spans
// ---------------------------------------------------------------------------

/// The spans `(ticks, tempo)` whose durations add up to the time of `tick`:
/// each tempo change at or before `tick` closes the span of the tempo before
/// it; the last span runs from the last such change to `tick`.
pub open spec fn spans_from(map: Seq<(u64, u32)>, tick: int, j: int, prev: int, tempo: u32) -> Seq<(u64, u32)>
    decreases map.len() - j,
{
    if j < 1 || j >= map.len() || tick <= map[j].0 {
        seq![((if tick > prev { tick - prev } else { 0 }) as u64, tempo)]
    } else {
        seq![((map[j].0 - prev) as u64, tempo)] + spans_from(map, tick, j + 1, map[j].0 as int, map[j].1)
    }
}

pub open spec fn tempo_spans_of(map: Seq<(u64, u32)>, tick: int) -> Seq<(u64, u32)> {
    spans_from(map, tick, 1, map[0].0 as int, map[0].1)
}

/// The tempo spans that make up the time of `tick`. The host turns each
/// span into seconds (`ticks * tempo / 1e6 / ticks_per_quarter`) and adds
/// them in order.
pub fn tempo_spans(tick: u64, map: &[(u64, u32)]) -> (r: Vec<(u64, u32)>)
    requires
        map@.len() >= 1,
        forall|i: int, j: int| 0 <= i <= j < map@.len() ==> map@[i].0 <= map@[j].0,
    ensures
        r@ == tempo_spans_of(map@, tick as int),
{
    let mut out: Vec<(u64, u32)> = Vec::new();
    let mut previous_tick: u64 = map[0].0;
    let mut current_tempo: u32 = map[0].1;
    let mut j: usize = 1;
    while j < map.len()
        invariant_except_break
            1 <= j <= map@.len(),
            previous_tick == map@[j - 1].0,
            current_tempo == map@[j - 1].1,
            forall|a: int, b: int| 0 <= a <= b < map@.len() ==> map@[a].0 <= map@[b].0,
            out@ + spans_from(map@, tick as int, j as int, previous_tick as int, current_tempo)
                == tempo_spans_of(map@, tick as int),
        ensures
            1 <= j <= map@.len(),
            out@ + seq![((if tick > previous_tick { tick - previous_tick } else { 0 }) as u64, current_tempo)]
                == tempo_spans_of(map@, tick as int),
        decreases map@.len() - j,
    {
        let (change_tick, tempo) = map[j];
        if tick <= change_tick {
            break;
        }
        let ghost out0 = out@;
        out.push((change_tick - previous_tick, current_tempo));
        proof {
            assert(out@ + spans_from(map@, tick as int, j + 1, change_tick as int, tempo) =~= out0 + spans_from(
                map@,
                tick as int,
                j as int,
                previous_tick as int,
                current_tempo,
            ));
        }
        previous_tick = change_tick;
        current_tempo = tempo;
        j = j + 1;
    }
    let remaining = if tick > previous_tick { tick - previous_tick } else { 0 };
    out.push((remaining, current_tempo));
    out
}

// ---------------------------------------------------------------------------
// Reading a file
// ---------------------------------------------------------------------------

/// Why a MIDI file cannot be read.
#[derive(Debug, Clone, PartialEq, Eq)]
pub enum MidiError {
    /// midly refused the bytes; the text is its message.
    Parse(String),
    NoTempo,
    /// SMPTE timecode timing, which the reader does not support.
    UnsupportedFormat,
}

/// A file's channel messages with their absolute ticks (track by track, in
/// file order), its tempo map and its resolution.
#[derive(Debug, Clone)]
pub struct SmfTimeline {
    pub ticks_per_quarter: u64,
    pub tempo_map: Vec<(u64, u32)>,
    pub events: Vec<SmfTimedEvent>,
}

/// What the timeline of a split file holds.
pub open spec fn timeline_holds(s: RawSmfView, t: SmfTimeline) -> bool {
    &&& (s.ticks_per_quarter matches Some(q) && t.ticks_per_quarter == q)
    &&& t.events@ == all_messages(s.tracks, 0)
    &&& is_tempo_map_of(all_tempos(s.tracks, 0), t.tempo_map@)
    &&& ticks_increasing(t.tempo_map@)
    &&& t.tempo_map@.len() >= 1
}

/// The timeline of a file that midly has split into tracks; SMPTE timing
/// is refused.
pub fn timeline_from_smf(smf: &RawSmf) -> (r: Result<SmfTimeline, MidiError>)
    requires
        ticks_fit(raw_smf_view(*smf)),
    ensures
        raw_smf_view(*smf).ticks_per_quarter is None ==> r == Err::<SmfTimeline, MidiError>(
            MidiError::UnsupportedFormat,
        ),
        raw_smf_view(*smf).ticks_per_quarter is Some ==> (r matches Ok(t) && timeline_holds(raw_smf_view(*smf), t)),
{
    let ghost sv = raw_smf_view(*smf);
    let ticks_per_quarter: u64 = match smf.ticks_per_quarter {
        Some(q) => q as u64,
        None => {
            return Err(MidiError::UnsupportedFormat);
        },
    };
    let mut events: Vec<SmfTimedEvent> = Vec::new();
    let mut changes: Vec<(u64, u32)> = Vec::new();
    let mut t: usize = 0;
    while t < smf.tracks.len()
        invariant
            t <= smf.tracks@.len(),
            sv == raw_smf_view(*smf),
            ticks_fit(sv),
            events@ + all_messages(sv.tracks, t as int) == all_messages(sv.tracks, 0),
            changes@ + all_tempos(sv.tracks, t as int) == all_tempos(sv.tracks, 0),
        decreases smf.tracks@.len() - t,
    {
        proof {
            assert(sv.tracks[t as int] == raw_track_view(smf.tracks@[t as int]));
        }
        let ghost e0 = events@;
        let ghost c0 = changes@;
        track_messages(&smf.tracks[t], &mut events, &mut changes);
        proof {
            assert(events@ + all_messages(sv.tracks, t + 1) =~= e0 + all_messages(sv.tracks, t as int));
            assert(changes@ + all_tempos(sv.tracks, t + 1) =~= c0 + all_tempos(sv.tracks, t as int));
        }
        t = t + 1;
    }
    proof {
        assert(all_messages(sv.tracks, t as int) == Seq::<SmfTimedEvent>::empty());
        assert(all_tempos(sv.tracks, t as int) == Seq::<(u64, u32)>::empty());
        assert(events@ == all_messages(sv.tracks, 0));
        assert(changes@ == all_tempos(sv.tracks, 0));
    }
    let map = tempo_map(&changes);
    Ok(SmfTimeline { ticks_per_quarter, tempo_map: map, events })
}

fn fits(smf: &RawSmf) -> (b: bool)
    ensures
        b == ticks_fit(raw_smf_view(*smf)),
{
    let ghost sv = raw_smf_view(*smf);
    let mut t: usize = 0;
    while t < smf.tracks.len()
        invariant
            t <= smf.tracks@.len(),
            sv == raw_smf_view(*smf),
            forall|q: int| 0 <= q < t ==> ticks_through(#[trigger] sv.tracks[q], sv.tracks[q].len() as int)
                <= u64::MAX,
        decreases smf.tracks@.len() - t,
    {
        let track = &smf.tracks[t];
        let ghost tv = sv.tracks[t as int];
        proof {
            assert(tv == raw_track_view(*track));
        }
        let mut sum: u64 = 0;
        let mut i: usize = 0;
        while i < track.len()
            invariant
                i <= track@.len(),
                t < smf.tracks@.len(),
                sv == raw_smf_view(*smf),
                tv == sv.tracks[t as int],
                tv == raw_track_view(*track),
                sum == ticks_through(tv, i as int),
            decreases track@.len() - i,
        {
            proof {
                assert(tv[i as int] == raw_event_view(track@[i as int]));
            }
            match sum.checked_add(track[i].delta as u64) {
                Some(x) => {
                    sum = x;
                },
                None => {
                    proof {
                        lemma_ticks_monotone(tv, i + 1, tv.len() as int);
                        assert(ticks_through(sv.tracks[t as int], sv.tracks[t as int].len() as int) > u64::MAX);
                    }
                    return false;
                },
            }
            i = i + 1;
        }
        t = t + 1;
    }
    true
}

/// Reads a Standard MIDI File. `None` where a track's ticks would pass
/// `u64::MAX`; otherwise midly's error, the timing refusal, or the
/// timeline.
pub fn read_midi_file(data: &[u8]) -> (r: Option<Result<SmfTimeline, MidiError>>)
    ensures
        match smf_reading(data@) {
            Err(m) => r matches Some(Err(MidiError::Parse(e))) && e@ == m,
            Ok(s) => if !ticks_fit(s) {
                r is None
            } else if s.ticks_per_quarter is None {
                r == Some(Err::<SmfTimeline, MidiError>(MidiError::UnsupportedFormat))
            } else {
                r matches Some(Ok(t)) && timeline_holds(s, t)
            },
        },
{
    let smf = match read_smf(data) {
        Ok(s) => s,
        Err(e) => {
            return Some(Err(MidiError::Parse(e)));
        },
    };
    if !fits(&smf) {
        return None;
    }
    Some(timeline_from_smf(&smf))
}

/// `a + b` holds exactly what `a` or `b` holds.
proof fn lemma_concat_has<A>(a: Seq<A>, b: Seq<A>, x: A)
    ensures
        (a + b).contains(x) <==> a.contains(x) || b.contains(x),
{
    if (a + b).contains(x) {
        let i = choose|i: int| 0 <= i < (a + b).len() && (a + b)[i] == x;
        if i >= a.len() {
            assert(b[i - a.len()] == x);
        }
    }
    if a.contains(x) {
        let i = choose|i: int| 0 <= i < a.len() && a[i] == x;
        assert((a + b)[i] == x);
    }
    if b.contains(x) {
        let i = choose|i: int| 0 <= i < b.len() && b[i] == x;
        assert((a + b)[a.len() + i] == x);
    }
}

/// The tempo entry of event `i`: its tempo at the tick of the event itself.
pub open spec fn tempo_entry(track: Seq<RawSmfEventView>, i: int) -> (u64, u32) {
    (ticks_through(track, i + 1) as u64, track[i].tempo->0)
}

/// The channel message of event `i` at the tick of the event itself.
pub open spec fn message_entry(track: Seq<RawSmfEventView>, i: int) -> SmfTimedEvent {
    SmfTimedEvent { tick: ticks_through(track, i + 1) as u64, kind: event_message(track[i].message)->0 }
}

proof fn lemma_tempos_members(track: Seq<RawSmfEventView>, i0: int, x: (u64, u32))
    requires
        0 <= i0 <= track.len(),
    ensures
        tempos_from(track, i0, ticks_through(track, i0)).contains(x) <==> exists|i: int|
            i0 <= i < track.len() && track[i].tempo is Some && x == #[trigger] tempo_entry(track, i),
    decreases track.len() - i0,
{
    if i0 < track.len() {
        let tick = ticks_through(track, i0);
        let t = tick + track[i0].delta;
        assert(t == ticks_through(track, i0 + 1));
        lemma_tempos_members(track, i0 + 1, x);
        let here: Seq<(u64, u32)> = match track[i0].tempo {
            Some(v) => seq![(t as u64, v)],
            None => seq![],
        };
        let rest = tempos_from(track, i0 + 1, t);
        lemma_concat_has(here, rest, x);
        assert(tempos_from(track, i0, tick) == here + rest);
        if here.contains(x) {
            assert(here[0] == x);
            assert(x == tempo_entry(track, i0));
        }
        if exists|i: int| i0 <= i < track.len() && track[i].tempo is Some && x == #[trigger] tempo_entry(track, i) {
            let i = choose|i: int| i0 <= i < track.len() && track[i].tempo is Some && x == #[trigger] tempo_entry(track, i);
            if i == i0 {
                assert(here[0] == x);
                assert(here.contains(x));
            } else {
                assert(rest.contains(x));
            }
        }
    } else {
        assert(tempos_from(track, i0, ticks_through(track, i0)) =~= Seq::<(u64, u32)>::empty());
    }
}

proof fn lemma_messages_members(track: Seq<RawSmfEventView>, i0: int, x: SmfTimedEvent)
    requires
        0 <= i0 <= track.len(),
    ensures
        messages_from(track, i0, ticks_through(track, i0)).contains(x) <==> exists|i: int|
            i0 <= i < track.len() && event_message(track[i].message) is Some && x == #[trigger] message_entry(track, i),
    decreases track.len() - i0,
{
    if i0 < track.len() {
        let tick = ticks_through(track, i0);
        let t = tick + track[i0].delta;
        assert(t == ticks_through(track, i0 + 1));
        lemma_messages_members(track, i0 + 1, x);
        let here: Seq<SmfTimedEvent> = match event_message(track[i0].message) {
            Some(k) => seq![SmfTimedEvent { tick: t as u64, kind: k }],
            None => seq![],
        };
        let rest = messages_from(track, i0 + 1, t);
        lemma_concat_has(here, rest, x);
        assert(messages_from(track, i0, tick) == here + rest);
        if here.contains(x) {
            assert(here[0] == x);
            assert(x == message_entry(track, i0));
        }
        if exists|i: int|
            i0 <= i < track.len() && event_message(track[i].message) is Some && x == #[trigger] message_entry(track, i) {
            let i = choose|i: int|
                i0 <= i < track.len() && event_message(track[i].message) is Some && x == #[trigger] message_entry(
                    track,
                    i,
                );
            if i == i0 {
                assert(here[0] == x);
                assert(here.contains(x));
            } else {
                assert(rest.contains(x));
            }
        }
    } else {
        assert(messages_from(track, i0, ticks_through(track, i0)) =~= Seq::<SmfTimedEvent>::empty());
    }
}

/// Every tempo change and every channel message of a track is stamped with
/// the tick of its own event, the sum of the deltas up to and including its
/// own, and the track's tempo list and message list hold exactly these.
pub proof fn law_events_at_their_own_tick(track: Seq<RawSmfEventView>, tempo: (u64, u32), message: SmfTimedEvent)
    ensures
        tempos_from(track, 0, 0).contains(tempo) <==> exists|i: int|
            0 <= i < track.len() && track[i].tempo is Some && tempo == (
            ticks_through(track, i + 1) as u64,
            #[trigger] track[i].tempo->0,
        ),
        messages_from(track, 0, 0).contains(message) <==> exists|i: int|
            0 <= i < track.len() && event_message(track[i].message) is Some && message == (SmfTimedEvent {
                tick: ticks_through(track, i + 1) as u64,
                kind: #[trigger] event_message(track[i].message)->0,
            }),
{
    lemma_tempos_members(track, 0, tempo);
    lemma_messages_members(track, 0, message);
    if exists|i: int|
        0 <= i < track.len() && track[i].tempo is Some && tempo == (
        ticks_through(track, i + 1) as u64,
        #[trigger] track[i].tempo->0,
    ) {
        let i = choose|i: int|
            0 <= i < track.len() && track[i].tempo is Some && tempo == (
            ticks_through(track, i + 1) as u64,
            #[trigger] track[i].tempo->0,
        );
        assert(tempo == tempo_entry(track, i));
    }
    if exists|i: int|
        0 <= i < track.len() && event_message(track[i].message) is Some && message == (SmfTimedEvent {
            tick: ticks_through(track, i + 1) as u64,
            kind: #[trigger] event_message(track[i].message)->0,
        }) {
        let i = choose|i: int|
            0 <= i < track.len() && event_message(track[i].message) is Some && message == (SmfTimedEvent {
                tick: ticks_through(track, i + 1) as u64,
                kind: #[trigger] event_message(track[i].message)->0,
            });
        assert(message == message_entry(track, i));
    }
}

} // verus!
