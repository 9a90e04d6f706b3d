//! Routing of MIDI sources to named parameter fields. A rule names a source
//! path such as `midi.cc.74` or `mpe.pressure` and a target field; within one
//! block the last event that reaches a field supplies its value. The host
//! applies each rule's affine transform to that event's value.

use vstd::prelude::*;
use vstd::string::StringExecFns;
use crate::midi::{ExpressionKind, MidiEventKind};

verus! {

/// The source path of an event, without its value.
#[derive(Debug, Clone, Copy, PartialEq, Eq, Structural)]
pub enum SourceKind {
    ControlChange(u8),
    PitchBend,
    ChannelPressure,
    PolyPressure,
    Note,
    ProgramChange,
    Expression(ExpressionKind),
}

pub open spec fn digit_char(d: int) -> char {
    (48 + d) as char
}

/// Decimal digits of `n`, most significant first, without leading zeros.
pub open spec fn decimal(n: nat) -> Seq<char>
    decreases n,
{
    if n < 10 {
        seq![digit_char(n as int)]
    } else {
        decimal(n / 10).push(digit_char((n % 10) as int))
    }
}

/// The canonical source path of an event kind.
pub open spec fn source_path(kind: SourceKind) -> Seq<char> {
    match kind {
        SourceKind::ControlChange(cc) => "midi.cc."@ + decimal(cc as nat),
        SourceKind::PitchBend => "midi.pitchbend"@,
        SourceKind::ChannelPressure => "midi.pressure"@,
        SourceKind::PolyPressure => "midi.poly_pressure"@,
        SourceKind::Note => "midi.note"@,
        SourceKind::ProgramChange => "midi.program"@,
        SourceKind::Expression(ExpressionKind::PitchBend) => "mpe.pitchbend"@,
        SourceKind::Expression(ExpressionKind::Pressure) => "mpe.pressure"@,
        SourceKind::Expression(ExpressionKind::Timbre) => "mpe.timbre"@,
    }
}

fn digit_str(d: u8) -> (s: &'static str)
    requires
        d < 10,
    ensures
        s@ == seq![digit_char(d as int)],
{
    match d {
        0 => {
            proof { reveal_strlit("0"); }
            "0"
        },
        1 => {
            proof { reveal_strlit("1"); }
            "1"
        },
        2 => {
            proof { reveal_strlit("2"); }
            "2"
        },
        3 => {
            proof { reveal_strlit("3"); }
            "3"
        },
        4 => {
            proof { reveal_strlit("4"); }
            "4"
        },
        5 => {
            proof { reveal_strlit("5"); }
            "5"
        },
        6 => {
            proof { reveal_strlit("6"); }
            "6"
        },
        7 => {
            proof { reveal_strlit("7"); }
            "7"
        },
        8 => {
            proof { reveal_strlit("8"); }
            "8"
        },
        _ => {
            proof { reveal_strlit("9"); }
            "9"
        },
    }
}

/// Appends the decimal digits of `n`.
pub fn append_decimal(s: &mut String, n: u8)
    ensures
        final(s)@ == old(s)@ + decimal(n as nat),
{
    if n >= 100 {
        s.append(digit_str(n / 100));
        s.append(digit_str((n / 10) % 10));
        s.append(digit_str(n % 10));
        proof {
            let d2 = digit_char((n / 100) as int);
            let d1 = digit_char(((n / 10) % 10) as int);
            let d0 = digit_char((n % 10) as int);
            assert(decimal((n / 100) as nat) == seq![d2]);
            assert(decimal((n / 10) as nat) == decimal((n / 100) as nat).push(d1));
            assert(decimal(n as nat) == decimal((n / 10) as nat).push(d0));
            assert(decimal(n as nat) =~= seq![d2] + seq![d1] + seq![d0]);
            assert(final(s)@ =~= old(s)@ + seq![d2] + seq![d1] + seq![d0]);
        }
    } else if n >= 10 {
        s.append(digit_str(n / 10));
        s.append(digit_str(n % 10));
        proof {
            let d1 = digit_char((n / 10) as int);
            let d0 = digit_char((n % 10) as int);
            assert(decimal((n / 10) as nat) == seq![d1]);
            assert(decimal(n as nat) =~= seq![d1] + seq![d0]);
            assert(final(s)@ =~= old(s)@ + seq![d1] + seq![d0]);
        }
    } else {
        s.append(digit_str(n));
    }
}

/// Appends the decimal digits of a wider number.
pub fn append_number(s: &mut String, n: u64)
    ensures
        final(s)@ == old(s)@ + decimal(n as nat),
    decreases n,
{
    if n >= 10 {
        append_number(s, n / 10);
        s.append(digit_str((n % 10) as u8));
        proof {
            assert(decimal(n as nat) == decimal((n / 10) as nat).push(digit_char((n % 10) as int)));
            assert(final(s)@ =~= old(s)@ + decimal(n as nat));
        }
    } else {
        s.append(digit_str(n as u8));
    }
}

pub fn source_key(kind: SourceKind) -> (key: String)
    ensures
        key@ == source_path(kind),
{
    match kind {
        SourceKind::ControlChange(cc) => {
            let mut s = String::from_str("midi.cc.");
            append_decimal(&mut s, cc);
            s
        },
        SourceKind::PitchBend => String::from_str("midi.pitchbend"),
        SourceKind::ChannelPressure => String::from_str("midi.pressure"),
        SourceKind::PolyPressure => String::from_str("midi.poly_pressure"),
        SourceKind::Note => String::from_str("midi.note"),
        SourceKind::ProgramChange => String::from_str("midi.program"),
        SourceKind::Expression(ExpressionKind::PitchBend) => String::from_str("mpe.pitchbend"),
        SourceKind::Expression(ExpressionKind::Pressure) => String::from_str("mpe.pressure"),
        SourceKind::Expression(ExpressionKind::Timbre) => String::from_str("mpe.timbre"),
    }
}

pub open spec fn source_of(kind: MidiEventKind) -> SourceKind {
    match kind {
        MidiEventKind::ControlChange { cc, .. } => SourceKind::ControlChange(cc),
        MidiEventKind::PitchBend { .. } => SourceKind::PitchBend,
        MidiEventKind::ChannelPressure { .. } => SourceKind::ChannelPressure,
        MidiEventKind::PolyPressure { .. } => SourceKind::PolyPressure,
        MidiEventKind::Note(_) => SourceKind::Note,
        MidiEventKind::ProgramChange { .. } => SourceKind::ProgramChange,
    }
}

impl MidiEventKind {
    pub fn source(&self) -> (s: SourceKind)
        ensures
            s == source_of(*self),
    {
        match self {
            MidiEventKind::ControlChange { cc, .. } => SourceKind::ControlChange(*cc),
            MidiEventKind::PitchBend { .. } => SourceKind::PitchBend,
            MidiEventKind::ChannelPressure { .. } => SourceKind::ChannelPressure,
            MidiEventKind::PolyPressure { .. } => SourceKind::PolyPressure,
            MidiEventKind::Note(_) => SourceKind::Note,
            MidiEventKind::ProgramChange { .. } => SourceKind::ProgramChange,
        }
    }
}

/// Maps a source path to a target field.
#[derive(Debug, Clone)]
pub struct RoutingRule {
    pub source: String,
    pub target: String,
}

impl RoutingRule {
    /// A rule that passes the value through unchanged.
    pub fn direct(source: &str, target: &str) -> (r: Self)
        ensures
            r.source@ == source@,
            r.target@ == target@,
    {
        RoutingRule { source: source.to_owned(), target: target.to_owned() }
    }
}

pub struct MidiRouter {
    pub rules: Vec<RoutingRule>,
}

/// Field `target` takes its value from event `event` through rule `rule`.
#[derive(Debug, Clone)]
pub struct RoutedField {
    pub target: String,
    pub event: usize,
    pub rule: usize,
}

/// Rule `r` routes event `e`.
pub open spec fn writes(rules: Seq<RoutingRule>, sources: Seq<SourceKind>, e: int, r: int) -> bool {
    &&& 0 <= e < sources.len()
    &&& 0 <= r < rules.len()
    &&& rules[r].source@ == source_path(sources[e])
}

/// Pair `(e2, r2)` comes after `(e, r)`: events in order, rules in order
/// within an event.
pub open spec fn later(e2: int, r2: int, e: int, r: int) -> bool {
    e2 > e || (e2 == e && r2 > r)
}

/// `(e, r)` is the last routing into field `t`.
pub open spec fn is_last_write(
    rules: Seq<RoutingRule>,
    sources: Seq<SourceKind>,
    t: Seq<char>,
    e: int,
    r: int,
) -> bool {
    &&& writes(rules, sources, e, r)
    &&& rules[r].target@ == t
    &&& forall|e2: int, r2: int|
        #![trigger writes(rules, sources, e2, r2)]
        later(e2, r2, e, r) && writes(rules, sources, e2, r2) ==> rules[r2].target@ != t
}

/// `out` names every routed field once, each with its last routing.
pub open spec fn routed(rules: Seq<RoutingRule>, sources: Seq<SourceKind>, out: Seq<RoutedField>) -> bool {
    &&& forall|i: int|
        0 <= i < out.len() ==> is_last_write(
            rules,
            sources,
            (#[trigger] out[i]).target@,
            out[i].event as int,
            out[i].rule as int,
        )
    &&& forall|i: int, j: int|
        0 <= i < out.len() && 0 <= j < out.len() && i != j ==> out[i].target@ != out[j].target@
    &&& forall|e: int, r: int|
        #[trigger] writes(rules, sources, e, r) ==> exists|i: int|
            0 <= i < out.len() && out[i].target@ == rules[r].target@
}

/// The routing state after the pairs before `(e, r)`: same as `routed`, but
/// counting only those pairs.
pub open spec fn routed_upto(
    rules: Seq<RoutingRule>,
    sources: Seq<SourceKind>,
    out: Seq<RoutedField>,
    e: int,
    r: int,
) -> bool {
    &&& forall|i: int|
        0 <= i < out.len() ==> {
            &&& writes(rules, sources, (#[trigger] out[i]).event as int, out[i].rule as int)
            &&& later(e, r, out[i].event as int, out[i].rule as int)
            &&& rules[out[i].rule as int].target@ == out[i].target@
            &&& forall|e2: int, r2: int|
                #![trigger writes(rules, sources, e2, r2)]
                later(e2, r2, out[i].event as int, out[i].rule as int) && later(e, r, e2, r2) && writes(
                    rules,
                    sources,
                    e2,
                    r2,
                ) ==> rules[r2].target@ != out[i].target@
        }
    &&& forall|i: int, j: int|
        0 <= i < out.len() && 0 <= j < out.len() && i != j ==> out[i].target@ != out[j].target@
    &&& forall|e2: int, r2: int|
        #[trigger] writes(rules, sources, e2, r2) && later(e, r, e2, r2) ==> exists|i: int|
            0 <= i < out.len() && out[i].target@ == rules[r2].target@
}

fn find_field(out: &Vec<RoutedField>, target: &String) -> (r: Option<usize>)
    ensures
        match r {
            Some(j) => j < out@.len() && out@[j as int].target@ == target@,
            None => forall|k: int| 0 <= k < out@.len() ==> out@[k].target@ != target@,
        },
{
    let mut j: usize = 0;
    while j < out.len()
        invariant
            j <= out@.len(),
            forall|k: int| 0 <= k < j ==> out@[k].target@ != target@,
        decreases out@.len() - j,
    {
        if out[j].target == *target {
            return Some(j);
        }
        j = j + 1;
    }
    None
}

impl MidiRouter {
    pub fn new(rules: Vec<RoutingRule>) -> (router: Self)
        ensures
            router.rules@ == rules@,
    {
        MidiRouter { rules }
    }

    /// For a block whose events have the given sources, the field each rule
    /// writes and the event and rule that write it last.
    pub fn process(&self, sources: &[SourceKind]) -> (out: Vec<RoutedField>)
        ensures
            routed(self.rules@, sources@, out@),
    {
        let ghost rules = self.rules@;
        let mut out: Vec<RoutedField> = Vec::new();
        let mut e: usize = 0;
        while e < sources.len()
            invariant
                e <= sources@.len(),
                rules == self.rules@,
                routed_upto(rules, sources@, out@, e as int, 0),
            decreases sources@.len() - e,
        {
            let key = source_key(sources[e]);
            let mut r: usize = 0;
            while r < self.rules.len()
                invariant
                    e < sources@.len(),
                    r <= self.rules@.len(),
                    rules == self.rules@,
                    key@ == source_path(sources@[e as int]),
                    routed_upto(rules, sources@, out@, e as int, r as int),
                decreases self.rules@.len() - r,
            {
                let ghost before = out@;
                if self.rules[r].source == key {
                    let target = &self.rules[r].target;
                    let j = match find_field(&out, target) {
                        Some(j) => j,
                        None => out.len(),
                    };
                    let field = RoutedField { target: target.clone(), event: e, rule: r };
                    if j < out.len() {
                        out.set(j, field);
                    } else {
                        out.push(field);
                    }
                    proof {
                        assert(writes(rules, sources@, e as int, r as int));
                        let o = out@;
                        assert forall|i: int, k: int|
                            0 <= i < o.len() && 0 <= k < o.len() && i != k implies o[i].target@
                            != o[k].target@ by {
                            if i != j && k != j {
                                assert(o[i] == before[i] && o[k] == before[k]);
                            } else if i == j {
                                assert(o[k] == before[k]);
                            } else {
                                assert(o[i] == before[i]);
                            }
                        }
                        assert forall|e2: int, r2: int|
                            #[trigger] writes(rules, sources@, e2, r2) && later(e as int, r + 1, e2, r2)
                                implies exists|i: int| 0 <= i < o.len() && o[i].target@ == rules[r2].target@ by {
                            if e2 == e && r2 == r {
                                assert(o[j as int].target@ == rules[r2].target@);
                            } else {
                                let i = choose|i: int| 0 <= i < before.len() && before[i].target@ == rules[r2].target@;
                                if i == j {
                                    assert(o[j as int].target@ == rules[r2].target@);
                                } else {
                                    assert(o[i] == before[i]);
                                }
                            }
                        }
                        assert forall|i: int| 0 <= i < o.len() implies {
                            &&& writes(rules, sources@, (#[trigger] o[i]).event as int, o[i].rule as int)
                            &&& later(e as int, r + 1, o[i].event as int, o[i].rule as int)
                            &&& rules[o[i].rule as int].target@ == o[i].target@
                            &&& forall|e2: int, r2: int|
                                #![trigger writes(rules, sources@, e2, r2)]
                                later(e2, r2, o[i].event as int, o[i].rule as int) && later(
                                    e as int,
                                    r + 1,
                                    e2,
                                    r2,
                                ) && writes(rules, sources@, e2, r2) ==> rules[r2].target@ != o[i].target@
                        } by {
                            if i != j {
                                assert(o[i] == before[i]);
                                assert(before[i].target@ != target@);
                            }
                        }
                    }
                } else {
                    proof {
                        assert(!writes(rules, sources@, e as int, r as int));
                        let o = out@;
                        assert forall|e2: int, r2: int|
                            #[trigger] writes(rules, sources@, e2, r2) && later(e as int, r + 1, e2, r2)
                                implies exists|i: int| 0 <= i < o.len() && o[i].target@ == rules[r2].target@ by {
                            assert(later(e as int, r as int, e2, r2));
                        }
                    }
                }
                r = r + 1;
            }
            proof {
                let o = out@;
                assert forall|e2: int, r2: int|
                    #[trigger] writes(rules, sources@, e2, r2) && later(e + 1, 0, e2, r2) implies exists|i: int|
                        0 <= i < o.len() && o[i].target@ == rules[r2].target@ by {
                    assert(later(e as int, self.rules@.len() as int, e2, r2));
                }
                assert forall|i: int| 0 <= i < o.len() implies forall|e2: int, r2: int|
                    #![trigger writes(rules, sources@, e2, r2)]
                    later(e2, r2, (#[trigger] o[i]).event as int, o[i].rule as int) && later(e + 1, 0, e2, r2)
                        && writes(rules, sources@, e2, r2) ==> rules[r2].target@ != o[i].target@ by {
                    assert forall|e2: int, r2: int|
                        #![trigger writes(rules, sources@, e2, r2)]
                        later(e2, r2, o[i].event as int, o[i].rule as int) && later(e + 1, 0, e2, r2) && writes(
                            rules,
                            sources@,
                            e2,
                            r2,
                        ) implies rules[r2].target@ != o[i].target@ by {
                        assert(later(e as int, self.rules@.len() as int, e2, r2));
                    }
                }
            }
            e = e + 1;
        }
        proof {
            let o = out@;
            assert forall|i: int| 0 <= i < o.len() implies is_last_write(
                rules,
                sources@,
                (#[trigger] o[i]).target@,
                o[i].event as int,
                o[i].rule as int,
            ) by {
                assert forall|e2: int, r2: int|
                    #![trigger writes(rules, sources@, e2, r2)]
                    later(e2, r2, o[i].event as int, o[i].rule as int) && writes(rules, sources@, e2, r2)
                        implies rules[r2].target@ != o[i].target@ by {
                    assert(later(e as int, 0, e2, r2));
                }
            }
            assert forall|e2: int, r2: int| #[trigger] writes(rules, sources@, e2, r2) implies exists|i: int|
                0 <= i < o.len() && o[i].target@ == rules[r2].target@ by {
                assert(later(e as int, 0, e2, r2));
            }
        }
        out
    }
}

/// Two event kinds are of the same sort: both controller changes of the
/// same controller, or both of one other variant.
pub open spec fn same_sort(a: MidiEventKind, b: MidiEventKind) -> bool {
    match (a, b) {
        (MidiEventKind::ControlChange { cc: x, .. }, MidiEventKind::ControlChange { cc: y, .. }) => x == y,
        (MidiEventKind::PitchBend { .. }, MidiEventKind::PitchBend { .. }) => true,
        (MidiEventKind::ChannelPressure { .. }, MidiEventKind::ChannelPressure { .. }) => true,
        (MidiEventKind::PolyPressure { .. }, MidiEventKind::PolyPressure { .. }) => true,
        (MidiEventKind::Note(_), MidiEventKind::Note(_)) => true,
        (MidiEventKind::ProgramChange { .. }, MidiEventKind::ProgramChange { .. }) => true,
        _ => false,
    }
}

/// Each event is routed under the path of its own kind: channel pressure
/// under `midi.pressure`, polyphonic pressure under `midi.poly_pressure`,
/// pitch bend under `midi.pitchbend`, notes under `midi.note`, program
/// changes under `midi.program`, controller `n` under `midi.cc.n`; and two
/// events share a source exactly when they are of the same sort.
pub proof fn law_event_sources(k: MidiEventKind, other: MidiEventKind)
    ensures
        source_path(source_of(k)) == match k {
            MidiEventKind::ControlChange { cc, .. } => "midi.cc."@ + decimal(cc as nat),
            MidiEventKind::PitchBend { .. } => "midi.pitchbend"@,
            MidiEventKind::ChannelPressure { .. } => "midi.pressure"@,
            MidiEventKind::PolyPressure { .. } => "midi.poly_pressure"@,
            MidiEventKind::Note(_) => "midi.note"@,
            MidiEventKind::ProgramChange { .. } => "midi.program"@,
        },
        source_of(k) == source_of(other) <==> same_sort(k, other),
{
}

} // verus!
