//! Scala scale (`.scl`) and keyboard mapping (`.kbm`) files, and the integer
//! side of Scala tuning: which scale degree a MIDI key plays and which period
//! and scale step a degree falls in. Cents values keep their decimal text and
//! the reference frequency is judged by the host, which owns the
//! floating-point arithmetic.

use vstd::prelude::*;
use vstd::string::StringExecFns;
use crate::text::{
    all_digits, chars_of, digits_value, find_char, index_of_char, is_digit, is_pointed_decimal, is_whitespace, is_ws, leading_ws,
    lemma_index_of_char, lemma_parse_signed_range, parse_i32, parse_i64, parse_signed, parse_u64, parse_unsigned, parse_usize,
    pointed_decimal, significant_lines, significant_lines_of, string_of,
};

verus! {

/// One interval line of a `.scl` file.
#[derive(Debug, Clone)]
pub enum SclInterval {
    /// Cents, as the decimal text written in the file.
    Cents(String),
    /// A ratio `num/den`; an integer `n` is the ratio `n/1`.
    Ratio { num: u64, den: u64 },
}

/// A parsed `.scl` file.
#[derive(Debug, Clone)]
pub struct SclScale {
    pub description: String,
    /// Intervals after the implicit 1/1; the last is the interval of
    /// equivalence.
    pub intervals: Vec<SclInterval>,
}

/// The value of an interval line.
pub enum IntervalValue {
    Cents(Seq<char>),
    Ratio(u64, u64),
}

pub open spec fn interval_value(i: SclInterval) -> IntervalValue {
    match i {
        SclInterval::Cents(text) => IntervalValue::Cents(text@),
        SclInterval::Ratio { num, den } => IntervalValue::Ratio(num, den),
    }
}

pub open spec fn quoted(prefix: Seq<char>, text: Seq<char>) -> Seq<char> {
    prefix + "'"@ + text + "'"@
}

/// Position of the first whitespace character, or the length.
pub open spec fn ws_index(s: Seq<char>) -> nat
    decreases s.len(),
{
    if s.len() == 0 || is_ws(s[0]) {
        0
    } else {
        1 + ws_index(s.drop_first())
    }
}

/// The first whitespace-separated token, as `split_whitespace().next()`.
pub open spec fn first_token(line: Seq<char>) -> Option<Seq<char>> {
    let t = line.subrange(leading_ws(line) as int, line.len() as int);
    if t.len() == 0 {
        None
    } else {
        Some(t.subrange(0, ws_index(t) as int))
    }
}

pub open spec fn has_char(s: Seq<char>, c: char) -> bool {
    index_of_char(s, c) < s.len()
}

/// The reading of one interval token.
pub open spec fn interval_of(token: Seq<char>) -> Result<IntervalValue, Seq<char>> {
    if has_char(token, '.') {
        if is_pointed_decimal(token) {
            Ok(IntervalValue::Cents(token))
        } else {
            Err(quoted("Invalid cents value: "@, token))
        }
    } else if has_char(token, '/') {
        let slash = index_of_char(token, '/') as int;
        let before = token.subrange(0, slash);
        let after = token.subrange(slash + 1, token.len() as int);
        if has_char(after, '/') {
            Err(quoted("Invalid ratio: "@, token))
        } else {
            match parse_unsigned(before, u64::MAX as int) {
                None => Err(quoted("Invalid ratio numerator: "@, before)),
                Some(num) => match parse_unsigned(after, u64::MAX as int) {
                    None => Err(quoted("Invalid ratio denominator: "@, after)),
                    Some(den) => if den == 0 {
                        Err(quoted("Zero denominator in ratio: "@, token))
                    } else {
                        Ok(IntervalValue::Ratio(num as u64, den as u64))
                    },
                },
            }
        }
    } else {
        match parse_unsigned(token, u64::MAX as int) {
            None => Err(quoted("Invalid interval value: "@, token)),
            Some(n) => Ok(IntervalValue::Ratio(n as u64, 1)),
        }
    }
}

/// The intervals on lines `2 + k ..` of a `.scl` file announcing `count`.
pub open spec fn intervals_from(lines: Seq<Seq<char>>, count: nat, k: nat) -> Result<
    Seq<IntervalValue>,
    Seq<char>,
>
    decreases count - k,
{
    if k >= count {
        Ok(seq![])
    } else if 2 + k as int >= lines.len() {
        Err("Not enough interval lines"@)
    } else {
        match first_token(lines[2 + k as int]) {
            None => Err("Empty interval line"@),
            Some(token) => match interval_of(token) {
                Err(m) => Err(m),
                Ok(iv) => match intervals_from(lines, count, k + 1) {
                    Err(m) => Err(m),
                    Ok(rest) => Ok(seq![iv] + rest),
                },
            },
        }
    }
}

/// What reading a `.scl` text gives: its description and intervals, or the
/// message of the first problem.
pub open spec fn scl_reading(text: Seq<char>) -> Result<(Seq<char>, Seq<IntervalValue>), Seq<char>> {
    let lines = significant_lines(text);
    if lines.len() < 1 {
        Err("Missing description line"@)
    } else if lines.len() < 2 {
        Err("Missing note count line"@)
    } else {
        match parse_unsigned(lines[1], usize::MAX as int) {
            None => Err(quoted("Invalid note count: "@, lines[1])),
            Some(count) => match intervals_from(lines, count as nat, 0) {
                Err(m) => Err(m),
                Ok(ivs) => Ok((lines[0], ivs)),
            },
        }
    }
}

pub open spec fn scale_matches(scale: SclScale, reading: (Seq<char>, Seq<IntervalValue>)) -> bool {
    &&& scale.description@ == reading.0
    &&& scale.intervals@.len() == reading.1.len()
    &&& forall|k: int| 0 <= k < reading.1.len() ==> interval_value(#[trigger] scale.intervals@[k]) == reading.1[k]
}

/// `prefix` followed by `text` in quotes.
fn quote(prefix: &str, v: &Vec<char>, from: usize, to: usize) -> (s: String)
    requires
        from <= to <= v@.len(),
    ensures
        s@ == quoted(prefix@, v@.subrange(from as int, to as int)),
{
    let mut s = String::from_str(prefix);
    s.append("'");
    let t = string_of(slice_of(v, from, to).as_slice());
    s.append(t.as_str());
    s.append("'");
    s
}

fn slice_of(v: &Vec<char>, from: usize, to: usize) -> (r: Vec<char>)
    requires
        from <= to <= v@.len(),
    ensures
        r@ == v@.subrange(from as int, to as int),
{
    let mut r: Vec<char> = Vec::new();
    let mut i: usize = from;
    while i < to
        invariant
            from <= i <= to <= v@.len(),
            r@ == v@.subrange(from as int, i as int),
        decreases to - i,
    {
        r.push(v[i]);
        proof {
            assert(v@.subrange(from as int, i + 1) == v@.subrange(from as int, i as int).push(v@[i as int]));
        }
        i = i + 1;
    }
    r
}

proof fn lemma_ws_index(s: Seq<char>)
    ensures
        ws_index(s) <= s.len(),
        forall|k: int| 0 <= k < ws_index(s) ==> !is_ws(s[k]),
        ws_index(s) < s.len() ==> is_ws(s[ws_index(s) as int]),
    decreases s.len(),
{
    if s.len() > 0 && !is_ws(s[0]) {
        lemma_ws_index(s.drop_first());
        assert forall|k: int| 0 <= k < ws_index(s) implies !is_ws(s[k]) by {
            if k > 0 {
                assert(s[k] == s.drop_first()[k - 1]);
            }
        }
    }
}

/// The range of the first token of `line`, or `None` for a blank line.
fn token_range(line: &Vec<char>) -> (r: Option<(usize, usize)>)
    ensures
        match first_token(line@) {
            None => r is None,
            Some(t) => r matches Some(p) && p.0 <= p.1 <= line@.len() && line@.subrange(p.0 as int, p.1 as int) == t,
        },
{
    let n = line.len();
    let mut a: usize = 0;
    proof {
        lemma_leading_ws_exec(line@);
    }
    while a < n && is_whitespace(line[a])
        invariant
            a <= n == line@.len(),
            a <= leading_ws(line@),
            leading_ws(line@) <= line@.len(),
            forall|k: int| 0 <= k < leading_ws(line@) ==> is_ws(line@[k]),
            leading_ws(line@) < line@.len() ==> !is_ws(line@[leading_ws(line@) as int]),
        decreases n - a,
    {
        a = a + 1;
    }
    if a == n {
        return None;
    }
    let ghost t = line@.subrange(a as int, n as int);
    proof {
        lemma_ws_index(t);
    }
    let mut b: usize = a;
    while b < n && !is_whitespace(line[b])
        invariant
            a <= b <= n == line@.len(),
            t == line@.subrange(a as int, n as int),
            b - a <= ws_index(t),
            ws_index(t) <= t.len(),
            forall|k: int| 0 <= k < ws_index(t) ==> !is_ws(t[k]),
            ws_index(t) < t.len() ==> is_ws(t[ws_index(t) as int]),
        decreases n - b,
    {
        assert(t[b - a] == line@[b as int]);
        b = b + 1;
    }
    if b < n {
        assert(t[b - a] == line@[b as int]);
    }
    proof {
        assert(line@.subrange(a as int, b as int) == t.subrange(0, ws_index(t) as int));
    }
    Some((a, b))
}

proof fn lemma_leading_ws_exec(s: Seq<char>)
    ensures
        leading_ws(s) <= s.len(),
        forall|k: int| 0 <= k < leading_ws(s) ==> is_ws(s[k]),
        leading_ws(s) < s.len() ==> !is_ws(s[leading_ws(s) as int]),
    decreases s.len(),
{
    if s.len() > 0 && is_ws(s[0]) {
        lemma_leading_ws_exec(s.drop_first());
        assert forall|k: int| 0 <= k < leading_ws(s) implies is_ws(s[k]) by {
            if k > 0 {
                assert(s[k] == s.drop_first()[k - 1]);
            }
        }
    }
}

/// Reads the interval token `v[from..to]`.
fn parse_interval(v: &Vec<char>, from: usize, to: usize) -> (r: Result<SclInterval, String>)
    requires
        from <= to <= v@.len(),
    ensures
        match interval_of(v@.subrange(from as int, to as int)) {
            Ok(iv) => r matches Ok(i) && interval_value(i) == iv,
            Err(m) => r matches Err(e) && e@ == m,
        },
{
    let ghost token = v@.subrange(from as int, to as int);
    proof {
        lemma_index_of_char(token, '.');
        lemma_index_of_char(token, '/');
    }
    let dot = find_char(v, from, to, '.');
    if from + dot < to {
        if pointed_decimal(v, from, to) {
            let text = string_of(slice_of(v, from, to).as_slice());
            return Ok(SclInterval::Cents(text));
        } else {
            return Err(quote("Invalid cents value: ", v, from, to));
        }
    }
    let slash = find_char(v, from, to, '/');
    if from + slash < to {
        let after = from + slash + 1;
        proof {
            assert(token.subrange(slash as int + 1, token.len() as int) == v@.subrange(after as int, to as int));
            assert(token.subrange(0, slash as int) == v@.subrange(from as int, from + slash));
        }
        let again = find_char(v, after, to, '/');
        if after + again < to {
            return Err(quote("Invalid ratio: ", v, from, to));
        }
        let num = match parse_u64(v, from, from + slash) {
            Some(n) => n,
            None => {
                return Err(quote("Invalid ratio numerator: ", v, from, from + slash));
            },
        };
        let den = match parse_u64(v, after, to) {
            Some(d) => d,
            None => {
                return Err(quote("Invalid ratio denominator: ", v, after, to));
            },
        };
        if den == 0 {
            return Err(quote("Zero denominator in ratio: ", v, from, to));
        }
        return Ok(SclInterval::Ratio { num, den });
    }
    match parse_u64(v, from, to) {
        Some(n) => Ok(SclInterval::Ratio { num: n, den: 1 }),
        None => Err(quote("Invalid interval value: ", v, from, to)),
    }
}

/// Parses a `.scl` text.
pub fn parse_scl(input: &str) -> (r: Result<SclScale, String>)
    ensures
        match scl_reading(input@) {
            Ok(reading) => r matches Ok(scale) && scale_matches(scale, reading),
            Err(m) => r matches Err(e) && e@ == m,
        },
{
    let text = chars_of(input);
    let lines = significant_lines_of(&text);
    let ghost ls = significant_lines(input@);
    if lines.len() < 1 {
        return Err(String::from_str("Missing description line"));
    }
    if lines.len() < 2 {
        return Err(String::from_str("Missing note count line"));
    }
    let count_line = &lines[1];
    proof {
        assert(lines@[1]@ == ls[1]);
        assert(count_line@.subrange(0, count_line@.len() as int) == count_line@);
    }
    let count = match parse_usize(count_line, 0, count_line.len()) {
        Some(c) => c,
        None => {
            return Err(quote("Invalid note count: ", count_line, 0, count_line.len()));
        },
    };
    let description = string_of(lines[0].as_slice());
    proof {
        assert(lines@[0]@ == ls[0]);
    }
    let mut intervals: Vec<SclInterval> = Vec::new();
    let mut k: usize = 0;
    proof {
        assert(Seq::new(0, |q: int| interval_value(intervals@[q])) + match intervals_from(ls, count as nat, 0) {
            Ok(rest) => rest,
            Err(_) => seq![],
        } == match intervals_from(ls, count as nat, 0) {
            Ok(rest) => rest,
            Err(_) => seq![],
        });
    }
    while k < count
        invariant
            k <= count,
            lines@.len() >= 2,
            description@ == ls[0],
            scl_reading(input@) == match intervals_from(ls, count as nat, 0) {
                Err(m) => Err(m),
                Ok(ivs) => Ok((ls[0], ivs)),
            },
            lines@.len() == ls.len(),
            forall|q: int| 0 <= q < lines@.len() ==> (#[trigger] lines@[q])@ == ls[q],
            intervals@.len() == k,
            intervals_from(ls, count as nat, 0) == match intervals_from(ls, count as nat, k as nat) {
                Ok(rest) => Ok(Seq::new(k as nat, |q: int| interval_value(intervals@[q])) + rest),
                Err(m) => Err(m),
            },
        decreases count - k,
    {
        if k >= lines.len() - 2 {
            return Err(String::from_str("Not enough interval lines"));
        }
        let line = &lines[2 + k];
        proof {
            assert(lines@[2 + k]@ == ls[2 + k]);
        }
        let (a, b) = match token_range(line) {
            Some(p) => p,
            None => {
                return Err(String::from_str("Empty interval line"));
            },
        };
        let interval = match parse_interval(line, a, b) {
            Ok(i) => i,
            Err(e) => {
                return Err(e);
            },
        };
        let ghost prev = Seq::new(k as nat, |q: int| interval_value(intervals@[q]));
        intervals.push(interval);
        proof {
            let now = Seq::new((k + 1) as nat, |q: int| interval_value(intervals@[q]));
            assert(now == prev.push(interval_value(interval)));
            match intervals_from(ls, count as nat, (k + 1) as nat) {
                Ok(rest) => {
                    assert(prev + (seq![interval_value(interval)] + rest) == now + rest);
                },
                Err(m) => {},
            }
        }
        k = k + 1;
    }
    proof {
        let got = Seq::new(k as nat, |q: int| interval_value(intervals@[q]));
        assert(got + seq![] == got);
    }
    Ok(SclScale { description, intervals })
}


// ---------------------------------------------------------------------------
// Keyboard mapping
// ---------------------------------------------------------------------------

/// A parsed `.kbm` file. Its reference frequency is kept by the host.
#[derive(Debug, Clone)]
pub struct KbmMapping {
    /// Number of entries in the key map; zero maps keys linearly.
    pub map_size: usize,
    /// First MIDI note that is retuned.
    pub first_note: u8,
    /// Last MIDI note that is retuned.
    pub last_note: u8,
    /// MIDI note where the first key-map entry is placed.
    pub middle_note: u8,
    /// MIDI note that sounds at the reference frequency.
    pub reference_note: u8,
    /// Scale degree advanced each time the key map repeats; zero means one
    /// full scale period.
    pub formal_octave: i32,
    /// Scale degree of each keyboard position; `None` is an unmapped key.
    pub key_map: Vec<Option<i32>>,
}

/// The host's judgement of the reference-frequency line of a `.kbm` text.
#[derive(Debug, Clone, Copy, PartialEq, Eq, Structural)]
pub enum FrequencyCheck {
    /// A finite frequency above zero.
    Accepted,
    /// A number, but infinite, NaN, zero or negative.
    OutOfRange,
    /// Not a floating-point number.
    Unparsable,
}

pub struct KbmValue {
    pub map_size: nat,
    pub first_note: u8,
    pub last_note: u8,
    pub middle_note: u8,
    pub reference_note: u8,
    pub formal_octave: i32,
    pub key_map: Seq<Option<i32>>,
}

pub open spec fn kbm_value(k: KbmMapping) -> KbmValue {
    KbmValue {
        map_size: k.map_size as nat,
        first_note: k.first_note,
        last_note: k.last_note,
        middle_note: k.middle_note,
        reference_note: k.reference_note,
        formal_octave: k.formal_octave,
        key_map: k.key_map@,
    }
}

/// Reading of the integer field on line `i` labelled `label`.
pub open spec fn int_field(lines: Seq<Seq<char>>, i: int, label: Seq<char>) -> Result<int, Seq<char>> {
    if i >= lines.len() {
        Err("Missing "@ + label)
    } else {
        match parse_signed(lines[i], i64::MIN as int, i64::MAX as int) {
            None => Err(label_quoted(label, lines[i])),
            Some(v) => Ok(v),
        }
    }
}

pub open spec fn label_quoted(label: Seq<char>, text: Seq<char>) -> Seq<char> {
    "Invalid "@ + label + ": "@ + "'"@ + text + "'"@
}

/// A MIDI note number: an integer from 0 to 127.
pub open spec fn midi_note_value(v: int, label: Seq<char>) -> Result<u8, Seq<char>> {
    if 0 <= v <= 127 {
        Ok(v as u8)
    } else {
        Err(label + " must be in the MIDI note range 0..=127"@)
    }
}

/// A count: an integer that fits in a `usize`.
pub open spec fn non_negative_value(v: int, label: Seq<char>) -> Result<nat, Seq<char>> {
    if 0 <= v <= usize::MAX {
        Ok(v as nat)
    } else {
        Err(label + " must be non-negative"@)
    }
}

/// A MIDI note field: an integer from 0 to 127.
pub open spec fn note_field(lines: Seq<Seq<char>>, i: int, label: Seq<char>) -> Result<u8, Seq<char>> {
    match int_field(lines, i, label) {
        Err(m) => Err(m),
        Ok(v) => midi_note_value(v, label),
    }
}

/// Key-map entries `k ..` of a map of `size` entries starting on line 7.
/// Missing trailing lines are unmapped keys.
pub open spec fn key_map_from(lines: Seq<Seq<char>>, size: nat, k: nat) -> Result<Seq<Option<i32>>, Seq<char>>
    decreases size - k,
{
    if k >= size {
        Ok(seq![])
    } else {
        let entry: Result<Option<i32>, Seq<char>> = if 7 + k as int >= lines.len() {
            Ok(None)
        } else if lines[7 + k as int] == "x"@ || lines[7 + k as int] == "X"@ {
            Ok(None)
        } else {
            match parse_signed(lines[7 + k as int], i32::MIN as int, i32::MAX as int) {
                None => Err(quoted("Invalid key map entry: "@, lines[7 + k as int])),
                Some(d) => Ok(Some(d as i32)),
            }
        };
        match entry {
            Err(m) => Err(m),
            Ok(e) => match key_map_from(lines, size, k + 1) {
                Err(m) => Err(m),
                Ok(rest) => Ok(seq![e] + rest),
            },
        }
    }
}

/// What reading a `.kbm` text gives, given the host's judgement of its
/// reference-frequency line.
pub open spec fn kbm_reading(text: Seq<char>, frequency: FrequencyCheck) -> Result<KbmValue, Seq<char>> {
    let lines = significant_lines(text);
    match int_field(lines, 0, "map size"@) {
        Err(m) => Err(m),
        Ok(size0) => match non_negative_value(size0, "map size"@) {
          Err(m) => Err(m),
          Ok(size) => {
            match note_field(lines, 1, "first note"@) {
                Err(m) => Err(m),
                Ok(first) => match note_field(lines, 2, "last note"@) {
                    Err(m) => Err(m),
                    Ok(last) => if first > last {
                        Err("First note must not be greater than last note"@)
                    } else {
                        match note_field(lines, 3, "middle note"@) {
                            Err(m) => Err(m),
                            Ok(middle) => match note_field(lines, 4, "reference note"@) {
                                Err(m) => Err(m),
                                Ok(reference) => if lines.len() <= 5 {
                                    Err("Missing reference frequency"@)
                                } else if frequency == FrequencyCheck::Unparsable {
                                    Err("Invalid reference frequency"@)
                                } else if frequency == FrequencyCheck::OutOfRange {
                                    Err("Reference frequency must be finite and greater than zero"@)
                                } else {
                                    match int_field(lines, 6, "formal octave"@) {
                                        Err(m) => Err(m),
                                        Ok(octave) => match key_map_from(lines, size as nat, 0) {
                                            Err(m) => Err(m),
                                            Ok(map) => Ok(
                                                KbmValue {
                                                    map_size: size as nat,
                                                    first_note: first,
                                                    last_note: last,
                                                    middle_note: middle,
                                                    reference_note: reference,
                                                    formal_octave: octave as i32,
                                                    key_map: map,
                                                },
                                            ),
                                        },
                                    }
                                },
                            },
                        }
                    },
                },
            }
        }
        }
    }
}

/// The reference-frequency line of a `.kbm` text, for the host to judge.
pub fn kbm_reference_frequency_line(input: &str) -> (r: Option<String>)
    ensures
        significant_lines(input@).len() > 5 ==> (r matches Some(s) && s@ == significant_lines(input@)[5]),
        significant_lines(input@).len() <= 5 ==> r is None,
{
    let text = chars_of(input);
    let lines = significant_lines_of(&text);
    if lines.len() > 5 {
        proof {
            assert(lines@[5]@ == significant_lines(input@)[5]);
        }
        Some(string_of(lines[5].as_slice()))
    } else {
        None
    }
}

fn label_message(label: &str, v: &Vec<char>) -> (s: String)
    ensures
        s@ == label_quoted(label@, v@),
{
    let mut s = String::from_str("Invalid ");
    s.append(label);
    s.append(": ");
    s.append("'");
    let t = string_of(v.as_slice());
    s.append(t.as_str());
    s.append("'");
    s
}

fn read_int(lines: &Vec<Vec<char>>, i: usize, label: &str) -> (r: Result<i64, String>)
    ensures
        match int_field(Seq::new(lines@.len(), |q: int| lines@[q]@), i as int, label@) {
            Ok(v) => r matches Ok(x) && x == v,
            Err(m) => r matches Err(e) && e@ == m,
        },
{
    let ghost ls = Seq::new(lines@.len(), |q: int| lines@[q]@);
    if i >= lines.len() {
        let mut s = String::from_str("Missing ");
        s.append(label);
        return Err(s);
    }
    let line = &lines[i];
    proof {
        assert(line@.subrange(0, line@.len() as int) == line@);
        assert(ls[i as int] == line@);
        lemma_parse_signed_range(line@, i64::MIN as int, i64::MAX as int);
    }
    match parse_i64(line, 0, line.len()) {
        Some(v) => Ok(v),
        None => Err(label_message(label, line)),
    }
}

/// A MIDI note number read from a `.kbm` field: 0 to 127, else an error
/// that names the field.
pub fn parse_midi_note(value: i64, label: &str) -> (r: Result<u8, String>)
    ensures
        match midi_note_value(value as int, label@) {
            Ok(n) => r == Ok::<u8, String>(n),
            Err(m) => r matches Err(e) && e@ == m,
        },
{
    if 0 <= value && value <= 127 {
        Ok(value as u8)
    } else {
        let mut s = String::from_str(label);
        s.append(" must be in the MIDI note range 0..=127");
        Err(s)
    }
}

/// A count read from a `.kbm` field: it must fit in a `usize`.
pub fn parse_non_negative_usize(value: i64, label: &str) -> (r: Result<usize, String>)
    ensures
        match non_negative_value(value as int, label@) {
            Ok(n) => r matches Ok(x) && x == n,
            Err(m) => r matches Err(e) && e@ == m,
        },
{
    if value < 0 || value as u64 as u128 > usize::MAX as u128 {
        let mut s = String::from_str(label);
        s.append(" must be non-negative");
        Err(s)
    } else {
        Ok(value as usize)
    }
}

fn read_note(lines: &Vec<Vec<char>>, i: usize, label: &str) -> (r: Result<u8, String>)
    ensures
        match note_field(Seq::new(lines@.len(), |q: int| lines@[q]@), i as int, label@) {
            Ok(v) => r == Ok::<u8, String>(v),
            Err(m) => r matches Err(e) && e@ == m,
        },
{
    match read_int(lines, i, label) {
        Ok(v) => parse_midi_note(v, label),
        Err(e) => Err(e),
    }
}

/// Parses a `.kbm` text. `frequency` judges its reference-frequency line
/// (see `kbm_reference_frequency_line`).
pub fn parse_kbm(input: &str, frequency: FrequencyCheck) -> (r: Result<KbmMapping, String>)
    ensures
        match kbm_reading(input@, frequency) {
            Ok(k) => r matches Ok(m) && kbm_value(m) == k,
            Err(msg) => r matches Err(e) && e@ == msg,
        },
{
    let text = chars_of(input);
    let lines = significant_lines_of(&text);
    let ghost ls = Seq::new(lines@.len(), |q: int| lines@[q]@);
    proof {
        assert(ls =~= significant_lines(input@));
    }
    let size = match read_int(&lines, 0, "map size") {
        Ok(v) => v,
        Err(e) => {
            return Err(e);
        },
    };
    let map_size = match parse_non_negative_usize(size, "map size") {
        Ok(v) => v,
        Err(e) => {
            return Err(e);
        },
    };
    let first_note = match read_note(&lines, 1, "first note") {
        Ok(v) => v,
        Err(e) => {
            return Err(e);
        },
    };
    let last_note = match read_note(&lines, 2, "last note") {
        Ok(v) => v,
        Err(e) => {
            return Err(e);
        },
    };
    if first_note > last_note {
        return Err(String::from_str("First note must not be greater than last note"));
    }
    let middle_note = match read_note(&lines, 3, "middle note") {
        Ok(v) => v,
        Err(e) => {
            return Err(e);
        },
    };
    let reference_note = match read_note(&lines, 4, "reference note") {
        Ok(v) => v,
        Err(e) => {
            return Err(e);
        },
    };
    if lines.len() <= 5 {
        return Err(String::from_str("Missing reference frequency"));
    }
    match frequency {
        FrequencyCheck::Unparsable => {
            return Err(String::from_str("Invalid reference frequency"));
        },
        FrequencyCheck::OutOfRange => {
            return Err(String::from_str("Reference frequency must be finite and greater than zero"));
        },
        FrequencyCheck::Accepted => {},
    }
    let octave = match read_int(&lines, 6, "formal octave") {
        Ok(v) => v,
        Err(e) => {
            return Err(e);
        },
    };
    let formal_octave = octave as i32;
    let mut key_map: Vec<Option<i32>> = Vec::new();
    let mut k: usize = 0;
    proof {
        assert(key_map@ + match key_map_from(ls, map_size as nat, 0) { Ok(rest) => rest, Err(_) => seq![] }
            == match key_map_from(ls, map_size as nat, 0) { Ok(rest) => rest, Err(_) => seq![] });
    }
    while k < map_size
        invariant
            k <= map_size,
            kbm_reading(input@, frequency) == match key_map_from(ls, map_size as nat, 0) {
                Err(m) => Err(m),
                Ok(map) => Ok(
                    KbmValue {
                        map_size: map_size as nat,
                        first_note,
                        last_note,
                        middle_note,
                        reference_note,
                        formal_octave,
                        key_map: map,
                    },
                ),
            },
            ls == significant_lines(input@),
            ls.len() == lines@.len(),
            forall|q: int| 0 <= q < lines@.len() ==> (#[trigger] lines@[q])@ == ls[q],
            key_map@.len() == k,
            key_map_from(ls, map_size as nat, 0) == match key_map_from(ls, map_size as nat, k as nat) {
                Ok(rest) => Ok(key_map@ + rest),
                Err(m) => Err(m),
            },
        decreases map_size - k,
    {
        let entry: Option<i32> = if k >= lines.len() || lines.len() - k <= 7 {
            None
        } else {
            let line = &lines[7 + k];
            proof {
                assert(ls[7 + k] == line@);
                assert(line@.subrange(0, line@.len() as int) == line@);
                reveal_strlit("x");
                reveal_strlit("X");
            }
            if line.len() == 1 && (line[0] == 'x' || line[0] == 'X') {
                proof {
                    assert(line@ == "x"@ || line@ == "X"@);
                }
                None
            } else {
                proof {
                    if line@ == "x"@ || line@ == "X"@ {
                        assert(line@.len() == 1);
                    }
                }
                match parse_i32(line, 0, line.len()) {
                    Some(d) => Some(d),
                    None => {
                        return Err(quote("Invalid key map entry: ", line, 0, line.len()));
                    },
                }
            }
        };
        let ghost prev = key_map@;
        key_map.push(entry);
        proof {
            match key_map_from(ls, map_size as nat, (k + 1) as nat) {
                Ok(rest) => {
                    assert(prev + (seq![entry] + rest) == key_map@ + rest);
                },
                Err(m) => {},
            }
        }
        k = k + 1;
    }
    proof {
        assert(key_map@ + seq![] == key_map@);
    }
    Ok(
        KbmMapping {
            map_size,
            first_note,
            last_note,
            middle_note,
            reference_note,
            formal_octave,
            key_map,
        },
    )
}


// ---------------------------------------------------------------------------
// Keyboard mapping arithmetic
// ---------------------------------------------------------------------------

/// The scale degree that `kbm` assigns to MIDI `note` for a scale with
/// `scale_len` degrees per period, or `None` for a key outside the mapped
/// range or unmapped. Without a key map (size zero) keys map linearly from
/// the middle note; otherwise the map repeats every `map_size` keys, a
/// formal octave higher each time (zero means one scale period).
pub open spec fn mapped_degree(kbm: KbmValue, scale_len: nat, note: u8) -> Option<int> {
    if note < kbm.first_note || note > kbm.last_note {
        None
    } else {
        let offset = note - kbm.middle_note;
        if kbm.map_size == 0 {
            Some(offset)
        } else if kbm.map_size > i32::MAX {
            None
        } else {
            let pattern = offset / (kbm.map_size as int);
            let index = offset % (kbm.map_size as int);
            if index >= kbm.key_map.len() {
                None
            } else {
                match kbm.key_map[index] {
                    None => None,
                    Some(d) => if kbm.formal_octave == 0 && scale_len > i32::MAX {
                        None
                    } else {
                        let formal: int = if kbm.formal_octave == 0 {
                            scale_len as int
                        } else {
                            kbm.formal_octave as int
                        };
                        Some(d + pattern * formal)
                    },
                }
            }
        }
    }
}

/// The mapped degree, where there is one, fits in an `i32` (the sum is
/// computed in `i32`).
pub open spec fn mapped_degree_fits(kbm: KbmValue, scale_len: nat, note: u8) -> bool {
    match mapped_degree(kbm, scale_len, note) {
        Some(d) => i32::MIN <= d <= i32::MAX,
        None => true,
    }
}

/// Exact mapped degree in wide arithmetic, `None` where unmapped.
fn wide_mapped_degree(kbm: &KbmMapping, scale_len: usize, note: u8) -> (r: Option<i64>)
    ensures
        match mapped_degree(kbm_value(*kbm), scale_len as nat, note) {
            Some(d) => r == Some(d as i64),
            None => r is None,
        },
        r matches Some(x) ==> mapped_degree(kbm_value(*kbm), scale_len as nat, note) == Some(x as int),
{
    let ghost k = kbm_value(*kbm);
    if note < kbm.first_note || note > kbm.last_note {
        return None;
    }
    let offset: i64 = note as i64 - kbm.middle_note as i64;
    if kbm.map_size == 0 {
        return Some(offset);
    }
    if kbm.map_size as u64 > i32::MAX as u64 {
        return None;
    }
    let m: i64 = kbm.map_size as i64;
    // offset >= -255, so shifting by 255 whole maps makes it non-negative.
    let shifted: i64 = offset + 255 * m;
    let q: i64 = shifted / m;
    let index: i64 = shifted % m;
    let pattern: i64 = q - 255;
    proof {
        assert(shifted >= 0);
        assert(shifted == q * m + index && 0 <= index < m) by (nonlinear_arith)
            requires
                shifted >= 0,
                m >= 1,
                q == shifted / m,
                index == shifted % m,
        ;
        assert(offset == pattern * m + index) by (nonlinear_arith)
            requires
                shifted == q * m + index,
                shifted == offset + 255 * m,
                pattern == q - 255,
        ;
        vstd::arithmetic::div_mod::lemma_fundamental_div_mod_converse(offset as int, m as int, pattern as int, index as int);
        assert(pattern == (offset as int) / (m as int));
        assert(index == (offset as int) % (m as int));
        assert(-255 <= pattern <= 255) by (nonlinear_arith)
            requires
                offset == pattern * m + index,
                0 <= index < m,
                m >= 1,
                -255 <= offset <= 255,
        ;
    }
    if index as usize >= kbm.key_map.len() {
        return None;
    }
    let entry = kbm.key_map[index as usize];
    let d = match entry {
        None => {
            return None;
        },
        Some(d) => d,
    };
    let formal: i64 = if kbm.formal_octave == 0 {
        if scale_len as u64 > i32::MAX as u64 {
            return None;
        }
        scale_len as i64
    } else {
        kbm.formal_octave as i64
    };
    proof {
        assert(-255 * 0x8000_0000 <= pattern * formal <= 255 * 0x8000_0000) by (nonlinear_arith)
            requires
                -255 <= pattern <= 255,
                -0x8000_0000 <= formal <= 0x8000_0000,
        ;
    }
    Some(d as i64 + pattern * formal)
}

/// Whether the mapped degree of `note` fits in an `i32`.
pub fn degree_fits(kbm: &KbmMapping, scale_len: usize, note: u8) -> (r: bool)
    ensures
        r == mapped_degree_fits(kbm_value(*kbm), scale_len as nat, note),
{
    match wide_mapped_degree(kbm, scale_len, note) {
        Some(d) => i32::MIN as i64 <= d && d <= i32::MAX as i64,
        None => true,
    }
}

/// The scale degree that `kbm` assigns to MIDI `note`, for a scale with
/// `scale_len` degrees per period.
pub fn mapped_degree_for_note(kbm: &KbmMapping, scale_len: usize, note: u8) -> (r: Option<i32>)
    requires
        mapped_degree_fits(kbm_value(*kbm), scale_len as nat, note),
    ensures
        match mapped_degree(kbm_value(*kbm), scale_len as nat, note) {
            Some(d) => r == Some(d as i32),
            None => r is None,
        },
        r matches Some(x) ==> mapped_degree(kbm_value(*kbm), scale_len as nat, note) == Some(x as int),
{
    match wide_mapped_degree(kbm, scale_len, note) {
        Some(d) => Some(d as i32),
        None => None,
    }
}

/// The degree a MIDI note plays: through the keyboard mapping where there is
/// one, else linearly with MIDI note 69 as degree zero.
pub open spec fn note_degree(kbm: Option<KbmValue>, scale_len: nat, note: u8) -> Option<int> {
    match kbm {
        Some(k) => mapped_degree(k, scale_len, note),
        None => Some(note - 69),
    }
}

pub fn midi_note_degree(kbm: Option<&KbmMapping>, scale_len: usize, note: u8) -> (r: Option<i32>)
    requires
        kbm matches Some(k) ==> mapped_degree_fits(kbm_value(*k), scale_len as nat, note),
    ensures
        match note_degree(
            match kbm {
                Some(k) => Some(kbm_value(*k)),
                None => None,
            },
            scale_len as nat,
            note,
        ) {
            Some(d) => r == Some(d as i32),
            None => r is None,
        },
{
    match kbm {
        Some(k) => mapped_degree_for_note(k, scale_len, note),
        None => Some(note as i32 - 69),
    }
}

/// The degree of the keyboard mapping's reference note, which a scale with
/// a mapping is anchored to. Refused for an empty scale, and where the
/// reference note is outside the mapped range or unmapped.
pub open spec fn reference_degree_of(intervals: nat, kbm: KbmValue) -> Result<int, Seq<char>> {
    if intervals == 0 {
        Err("A keyboard mapping requires a non-empty Scala scale"@)
    } else {
        match mapped_degree(kbm, intervals, kbm.reference_note) {
            None => Err("The KBM reference note is outside the mapped range or unmapped"@),
            Some(d) => Ok(d),
        }
    }
}

pub fn reference_degree(scl: &SclScale, kbm: &KbmMapping) -> (r: Result<i32, String>)
    requires
        mapped_degree_fits(kbm_value(*kbm), scl.intervals@.len(), kbm.reference_note),
    ensures
        match reference_degree_of(scl.intervals@.len(), kbm_value(*kbm)) {
            Ok(d) => r == Ok::<i32, String>(d as i32),
            Err(m) => r matches Err(e) && e@ == m,
        },
{
    if scl.intervals.len() == 0 {
        return Err(String::from_str("A keyboard mapping requires a non-empty Scala scale"));
    }
    match mapped_degree_for_note(kbm, scl.intervals.len(), kbm.reference_note) {
        Some(d) => Ok(d),
        None => Err(String::from_str("The KBM reference note is outside the mapped range or unmapped")),
    }
}

/// Where a degree falls in a scale of `size` steps per period: the step
/// (Euclidean remainder) and the period (Euclidean quotient).
pub fn split_degree(degree: i32, size: usize) -> (r: (usize, i32))
    requires
        1 <= size <= i32::MAX,
    ensures
        r.0 == (degree as int) % (size as int),
        r.1 == (degree as int) / (size as int),
        r.0 < size,
        degree == r.1 * size + r.0,
{
    let m: i64 = size as i64;
    let shifted: i64 = degree as i64 + 0x8000_0000i64 * m;
    let q: i64 = shifted / m;
    let step: i64 = shifted % m;
    let period: i64 = q - 0x8000_0000i64;
    proof {
        assert(shifted >= 0) by (nonlinear_arith)
            requires
                shifted == degree + 0x8000_0000 * m,
                m >= 1,
                degree >= -0x8000_0000,
        ;
        assert(shifted == q * m + step && 0 <= step < m) by (nonlinear_arith)
            requires
                shifted >= 0,
                m >= 1,
                q == shifted / m,
                step == shifted % m,
        ;
        assert(degree == period * m + step) by (nonlinear_arith)
            requires
                shifted == q * m + step,
                shifted == degree + 0x8000_0000 * m,
                period == q - 0x8000_0000,
        ;
        vstd::arithmetic::div_mod::lemma_fundamental_div_mod_converse(degree as int, m as int, period as int, step as int);
        assert(i32::MIN <= period <= i32::MAX) by (nonlinear_arith)
            requires
                degree == period * m + step,
                0 <= step < m,
                m >= 1,
                i32::MIN <= degree <= i32::MAX,
        ;
    }
    (step as usize, period as i32)
}

/// A keyboard mapping repeats: a key one map size higher plays the same
/// entry a formal octave (or one scale period) higher, when both keys are in
/// the mapped range.
pub proof fn law_key_map_repeats(kbm: KbmValue, scale_len: nat, note: u8)
    requires
        1 <= kbm.map_size <= i32::MAX,
        note + kbm.map_size <= 255,
        kbm.first_note <= note,
        note + kbm.map_size <= kbm.last_note,
        kbm.formal_octave != 0 || scale_len <= i32::MAX,
    ensures
        ({
            let higher = (note + kbm.map_size) as u8;
            let formal: int = if kbm.formal_octave == 0 {
                scale_len as int
            } else {
                kbm.formal_octave as int
            };
            match mapped_degree(kbm, scale_len, note) {
                Some(d) => mapped_degree(kbm, scale_len, higher) == Some(d + formal),
                None => mapped_degree(kbm, scale_len, higher) is None,
            }
        }),
{
    let m = kbm.map_size as int;
    let offset = note - kbm.middle_note;
    let higher = (note + kbm.map_size) as u8;
    let offset2 = higher - kbm.middle_note;
    assert(offset2 == offset + m);
    vstd::arithmetic::div_mod::lemma_fundamental_div_mod(offset, m);
    let p = offset / m;
    let i = offset % m;
    assert(offset2 == (p + 1) * m + i) by (nonlinear_arith)
        requires
            offset2 == offset + m,
            offset == m * p + i,
    ;
    vstd::arithmetic::div_mod::lemma_fundamental_div_mod_converse(offset2, m, p + 1, i);
    let formal: int = if kbm.formal_octave == 0 {
        scale_len as int
    } else {
        kbm.formal_octave as int
    };
    assert((p + 1) * formal == p * formal + formal) by (nonlinear_arith);
}

/// Splitting a degree and reassembling it gives the degree back, and one
/// period higher is the same step one period up.
pub proof fn law_split_degree_periodic(degree: int, size: int)
    requires
        size >= 1,
    ensures
        degree == (degree / size) * size + degree % size,
        0 <= degree % size < size,
        (degree + size) % size == degree % size,
        (degree + size) / size == degree / size + 1,
{
    vstd::arithmetic::div_mod::lemma_fundamental_div_mod(degree, size);
    let q = degree / size;
    let r = degree % size;
    assert(degree + size == (q + 1) * size + r) by (nonlinear_arith)
        requires
            degree == size * q + r,
    ;
    vstd::arithmetic::div_mod::lemma_fundamental_div_mod_converse(degree + size, size, q + 1, r);
    assert(degree == q * size + r) by (nonlinear_arith)
        requires
            degree == size * q + r,
    ;
}

/// An interval written as a plain decimal integer `n` (within `u64`) is the
/// ratio `n/1`, never cents; one written `p/q` with decimal `p` and nonzero
/// decimal `q` is the ratio `p/q`.
pub proof fn law_integer_and_ratio_intervals(token: Seq<char>, num: Seq<char>, den: Seq<char>)
    ensures
        token.len() > 0 && all_digits(token) && digits_value(token) <= u64::MAX ==> interval_of(token) == Ok::<
            IntervalValue,
            Seq<char>,
        >(IntervalValue::Ratio(digits_value(token) as u64, 1)),
        num.len() > 0 && all_digits(num) && digits_value(num) <= u64::MAX && den.len() > 0 && all_digits(den)
            && 0 < digits_value(den) <= u64::MAX ==> interval_of(num + seq!['/'] + den) == Ok::<
            IntervalValue,
            Seq<char>,
        >(IntervalValue::Ratio(digits_value(num) as u64, digits_value(den) as u64)),
{
    if token.len() > 0 && all_digits(token) && digits_value(token) <= u64::MAX {
        lemma_index_of_char(token, '.');
        lemma_index_of_char(token, '/');
        assert(is_digit(token[0]));
        if index_of_char(token, '.') < token.len() {
            assert(is_digit(token[index_of_char(token, '.') as int]));
        }
        if index_of_char(token, '/') < token.len() {
            assert(is_digit(token[index_of_char(token, '/') as int]));
        }
    }
    if num.len() > 0 && all_digits(num) && digits_value(num) <= u64::MAX && den.len() > 0 && all_digits(den)
        && 0 < digits_value(den) <= u64::MAX {
        let t = num + seq!['/'] + den;
        lemma_index_of_char(t, '.');
        lemma_index_of_char(t, '/');
        lemma_index_of_char(den, '/');
        assert(t[num.len() as int] == '/');
        assert forall|k: int| 0 <= k < num.len() implies t[k] != '/' by {
            assert(t[k] == num[k]);
            assert(is_digit(num[k]));
        }
        assert(index_of_char(t, '/') == num.len());
        if index_of_char(t, '.') < t.len() {
            let k = index_of_char(t, '.') as int;
            if k < num.len() {
                assert(t[k] == num[k] && is_digit(num[k]));
            } else if k > num.len() {
                assert(t[k] == den[k - num.len() - 1] && is_digit(den[k - num.len() - 1]));
            }
        }
        assert(t.subrange(0, num.len() as int) =~= num);
        assert(t.subrange(num.len() as int + 1, t.len() as int) =~= den);
        if index_of_char(den, '/') < den.len() {
            assert(is_digit(den[index_of_char(den, '/') as int]));
        }
        assert(is_digit(num[0]) && is_digit(den[0]));
    }
}

} // verus!
