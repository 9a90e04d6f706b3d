//! Character-level reading of the plain-text tuning formats: significant
//! lines, Unicode whitespace trimming, decimal integers in the syntax of
//! Rust's integer `FromStr`, and the decimal floating-point syntax of
//! `f64::from_str`.

use vstd::prelude::*;
use vstd::string::StrSliceExecFns;

verus! {

/// Unicode White_Space, the set `char::is_whitespace` tests.
pub open spec fn is_ws(c: char) -> bool {
    let u = c as u32;
    (0x09 <= u <= 0x0D) || u == 0x20 || u == 0x85 || u == 0xA0 || u == 0x1680 || (0x2000 <= u
        <= 0x200A) || u == 0x2028 || u == 0x2029 || u == 0x202F || u == 0x205F || u == 0x3000
}

pub fn is_whitespace(c: char) -> (b: bool)
    ensures
        b == is_ws(c),
{
    let u = c as u32;
    (0x09 <= u && u <= 0x0D) || u == 0x20 || u == 0x85 || u == 0xA0 || u == 0x1680 || (0x2000 <= u
        && u <= 0x200A) || u == 0x2028 || u == 0x2029 || u == 0x202F || u == 0x205F || u == 0x3000
}

pub open spec fn is_digit(c: char) -> bool {
    '0' <= c <= '9'
}

pub open spec fn all_digits(s: Seq<char>) -> bool {
    forall|i: int| 0 <= i < s.len() ==> is_digit(#[trigger] s[i])
}

/// Value of a string of decimal digits.
pub open spec fn digits_value(s: Seq<char>) -> int
    decreases s.len(),
{
    if s.len() == 0 {
        0
    } else {
        digits_value(s.drop_last()) * 10 + (s.last() as int - '0' as int)
    }
}

/// Number of leading whitespace characters.
pub open spec fn leading_ws(s: Seq<char>) -> nat
    decreases s.len(),
{
    if s.len() > 0 && is_ws(s[0]) {
        1 + leading_ws(s.drop_first())
    } else {
        0
    }
}

/// Number of trailing whitespace characters.
pub open spec fn trailing_ws(s: Seq<char>) -> nat
    decreases s.len(),
{
    if s.len() > 0 && is_ws(s.last()) {
        1 + trailing_ws(s.drop_last())
    } else {
        0
    }
}

/// `str::trim`.
pub open spec fn trim(s: Seq<char>) -> Seq<char> {
    let t = s.subrange(leading_ws(s) as int, s.len() as int);
    t.subrange(0, t.len() - trailing_ws(t))
}

/// Position of the first `c` in `s`, or its length.
pub open spec fn index_of_char(s: Seq<char>, c: char) -> nat
    decreases s.len(),
{
    if s.len() == 0 || s[0] == c {
        0
    } else {
        1 + index_of_char(s.drop_first(), c)
    }
}

pub proof fn lemma_index_of_char(s: Seq<char>, c: char)
    ensures
        index_of_char(s, c) <= s.len(),
        forall|k: int| 0 <= k < index_of_char(s, c) ==> s[k] != c,
        index_of_char(s, c) < s.len() ==> s[index_of_char(s, c) as int] == c,
    decreases s.len(),
{
    if s.len() > 0 && s[0] != c {
        lemma_index_of_char(s.drop_first(), c);
        assert forall|k: int| 0 <= k < index_of_char(s, c) implies s[k] != c by {
            if k > 0 {
                assert(s[k] == s.drop_first()[k - 1]);
            }
        }
    }
}

/// A line worth reading: not blank and not a `!` comment.
pub open spec fn is_significant(line: Seq<char>) -> bool {
    line.len() > 0 && line[0] != '!'
}

/// The lines of `s` (separated by `'\n'`), trimmed, without blank lines
/// and `!` comments. This equals trimming and filtering `str::lines`: the
/// two differ only in a final empty line and a `'\r'` before `'\n'`, which
/// trimming and the blank-line filter remove.
pub open spec fn significant_lines(s: Seq<char>) -> Seq<Seq<char>>
    decreases s.len(),
{
    let i = index_of_char(s, '\n');
    let head = trim(s.subrange(0, if i <= s.len() { i as int } else { s.len() as int }));
    let first: Seq<Seq<char>> = if is_significant(head) {
        seq![head]
    } else {
        seq![]
    };
    if i >= s.len() {
        first
    } else {
        first + significant_lines(s.subrange(i as int + 1, s.len() as int))
    }
}

pub fn chars_of(s: &str) -> (v: Vec<char>)
    ensures
        v@ == s@,
{
    let n = s.unicode_len();
    let mut v: Vec<char> = Vec::new();
    let mut i: usize = 0;
    while i < n
        invariant
            n == s@.len(),
            i <= n,
            v@ == s@.subrange(0, i as int),
        decreases n - i,
    {
        v.push(s.get_char(i));
        proof {
            assert(s@.subrange(0, i + 1) == s@.subrange(0, i as int).push(s@[i as int]));
        }
        i = i + 1;
    }
    proof {
        assert(s@.subrange(0, n as int) == s@);
    }
    v
}

pub fn string_of(v: &[char]) -> (s: String)
    ensures
        s@ == v@,
{
    let mut s = String::new();
    let mut i: usize = 0;
    while i < v.len()
        invariant
            i <= v@.len(),
            s@ == v@.subrange(0, i as int),
        decreases v@.len() - i,
    {
        push_char(&mut s, v[i]);
        proof {
            assert(v@.subrange(0, i + 1) == v@.subrange(0, i as int).push(v@[i as int]));
        }
        i = i + 1;
    }
    proof {
        assert(v@.subrange(0, v@.len() as int) == v@);
    }
    s
}

/// `String::push`: appends one character. The contract claims, as its
/// documentation says, that the text afterwards is the text before with
/// `c` at its end.
#[verifier::external_body]
fn push_char(s: &mut String, c: char)
    ensures
        final(s)@ == old(s)@.push(c),
{
    s.push(c)
}

proof fn lemma_leading_ws(s: Seq<char>)
    ensures
        leading_ws(s) <= s.len(),
        forall|k: int| 0 <= k < leading_ws(s) ==> is_ws(s[k]),
        leading_ws(s) < s.len() ==> !is_ws(s[leading_ws(s) as int]),
    decreases s.len(),
{
    if s.len() > 0 && is_ws(s[0]) {
        lemma_leading_ws(s.drop_first());
        assert forall|k: int| 0 <= k < leading_ws(s) implies is_ws(s[k]) by {
            if k > 0 {
                assert(s[k] == s.drop_first()[k - 1]);
            }
        }
    }
}

proof fn lemma_trailing_ws(s: Seq<char>)
    ensures
        trailing_ws(s) <= s.len(),
        forall|k: int| s.len() - trailing_ws(s) <= k < s.len() ==> is_ws(s[k]),
        trailing_ws(s) < s.len() ==> !is_ws(s[s.len() - trailing_ws(s) - 1]),
    decreases s.len(),
{
    if s.len() > 0 && is_ws(s.last()) {
        lemma_trailing_ws(s.drop_last());
        assert forall|k: int| s.len() - trailing_ws(s) <= k < s.len() implies is_ws(s[k]) by {
            if k < s.len() - 1 {
                assert(s[k] == s.drop_last()[k]);
            }
        }
        if trailing_ws(s) < s.len() {
            assert(s[s.len() - trailing_ws(s) - 1] == s.drop_last()[s.drop_last().len() - trailing_ws(s.drop_last()) - 1]);
        }
    }
}

/// Leading whitespace count, computed on `v[from..to]`.
fn count_leading_ws(v: &Vec<char>, from: usize, to: usize) -> (n: usize)
    requires
        from <= to <= v@.len(),
    ensures
        n == leading_ws(v@.subrange(from as int, to as int)),
{
    let ghost s = v@.subrange(from as int, to as int);
    proof { lemma_leading_ws(s); }
    let mut i: usize = from;
    while i < to && is_whitespace(v[i])
        invariant
            from <= i <= to <= v@.len(),
            s == v@.subrange(from as int, to as int),
            i - from <= leading_ws(s),
            forall|k: int| 0 <= k < leading_ws(s) ==> is_ws(s[k]),
            leading_ws(s) < s.len() ==> !is_ws(s[leading_ws(s) as int]),
            leading_ws(s) <= s.len(),
        decreases to - i,
    {
        assert(s[i - from] == v@[i as int]);
        i = i + 1;
    }
    if i < to {
        assert(s[i - from] == v@[i as int]);
    }
    i - from
}

/// Trailing whitespace count, computed on `v[from..to]`.
fn count_trailing_ws(v: &Vec<char>, from: usize, to: usize) -> (n: usize)
    requires
        from <= to <= v@.len(),
    ensures
        n == trailing_ws(v@.subrange(from as int, to as int)),
{
    let ghost s = v@.subrange(from as int, to as int);
    proof { lemma_trailing_ws(s); }
    let mut j: usize = to;
    while j > from && is_whitespace(v[j - 1])
        invariant
            from <= j <= to <= v@.len(),
            s == v@.subrange(from as int, to as int),
            to - j <= trailing_ws(s),
            forall|k: int| s.len() - trailing_ws(s) <= k < s.len() ==> is_ws(s[k]),
            trailing_ws(s) < s.len() ==> !is_ws(s[s.len() - trailing_ws(s) - 1]),
            trailing_ws(s) <= s.len(),
        decreases j - from,
    {
        assert(s[j - 1 - from] == v@[j - 1]);
        j = j - 1;
    }
    if j > from {
        assert(s[j - 1 - from] == v@[j - 1]);
    }
    to - j
}

/// The trimmed range of `v[from..to]`.
pub fn trim_range(v: &Vec<char>, from: usize, to: usize) -> (r: (usize, usize))
    requires
        from <= to <= v@.len(),
    ensures
        from <= r.0 <= r.1 <= to,
        v@.subrange(r.0 as int, r.1 as int) == trim(v@.subrange(from as int, to as int)),
{
    let lead = count_leading_ws(v, from, to);
    proof { lemma_leading_ws(v@.subrange(from as int, to as int)); }
    let start = from + lead;
    let trail = count_trailing_ws(v, start, to);
    proof {
        lemma_trailing_ws(v@.subrange(start as int, to as int));
        let s = v@.subrange(from as int, to as int);
        let t = s.subrange(leading_ws(s) as int, s.len() as int);
        assert(t == v@.subrange(start as int, to as int));
        assert(t.subrange(0, t.len() - trailing_ws(t)) == v@.subrange(start as int, to - trail));
    }
    (start, to - trail)
}

/// Position of the first `c` in `v[from..to]`, relative to `from`.
pub fn find_char(v: &Vec<char>, from: usize, to: usize, c: char) -> (n: usize)
    requires
        from <= to <= v@.len(),
    ensures
        n == index_of_char(v@.subrange(from as int, to as int), c),
        from + n <= to,
{
    let ghost s = v@.subrange(from as int, to as int);
    proof { lemma_index_of_char(s, c); }
    let mut i: usize = from;
    while i < to && v[i] != c
        invariant
            from <= i <= to <= v@.len(),
            s == v@.subrange(from as int, to as int),
            i - from <= index_of_char(s, c),
            forall|k: int| 0 <= k < index_of_char(s, c) ==> s[k] != c,
            index_of_char(s, c) < s.len() ==> s[index_of_char(s, c) as int] == c,
            index_of_char(s, c) <= s.len(),
        decreases to - i,
    {
        assert(s[i - from] == v@[i as int]);
        i = i + 1;
    }
    if i < to {
        assert(s[i - from] == v@[i as int]);
    }
    i - from
}

/// The significant lines of `text` as character vectors.
pub fn significant_lines_of(text: &Vec<char>) -> (lines: Vec<Vec<char>>)
    ensures
        lines@.len() == significant_lines(text@).len(),
        forall|k: int| 0 <= k < lines@.len() ==> (#[trigger] lines@[k])@ == significant_lines(text@)[k],
{
    let mut out: Vec<Vec<char>> = Vec::new();
    let mut start: usize = 0;
    let n = text.len();
    proof {
        assert(text@.subrange(0, n as int) == text@);
    }
    loop
        invariant_except_break
            n == text@.len(),
            start <= n,
            out@.len() + significant_lines(text@.subrange(start as int, n as int)).len()
                == significant_lines(text@).len(),
            forall|k: int| 0 <= k < out@.len() ==> (#[trigger] out@[k])@ == significant_lines(text@)[k],
            forall|k: int|
                0 <= k < significant_lines(text@.subrange(start as int, n as int)).len() ==> significant_lines(
                    text@,
                )[out@.len() + k] == significant_lines(text@.subrange(start as int, n as int))[k],
        ensures
            out@.len() == significant_lines(text@).len(),
            forall|k: int| 0 <= k < out@.len() ==> (#[trigger] out@[k])@ == significant_lines(text@)[k],
        decreases n - start,
    {
        let ghost s = text@.subrange(start as int, n as int);
        let i = find_char(text, start, n, '\n');
        let (a, b) = trim_range(text, start, start + i);
        proof {
            assert(s.subrange(0, i as int) == text@.subrange(start as int, start + i));
        }
        let ghost head = text@.subrange(a as int, b as int);
        let ghost before_len = out@.len();
        if a < b && text[a] != '!' {
            let mut line: Vec<char> = Vec::new();
            let mut k: usize = a;
            while k < b
                invariant
                    a <= k <= b <= text@.len(),
                    line@ == text@.subrange(a as int, k as int),
                decreases b - k,
            {
                line.push(text[k]);
                proof {
                    assert(text@.subrange(a as int, k + 1) == text@.subrange(a as int, k as int).push(text@[k as int]));
                }
                k = k + 1;
            }
            out.push(line);
        }
        proof {
            let rest = if i >= s.len() { seq![] } else { significant_lines(s.subrange(i as int + 1, s.len() as int)) };
            assert(significant_lines(s) == (if is_significant(head) { seq![head] } else { seq![] }) + rest);
            if is_significant(head) {
                assert(significant_lines(text@)[before_len as int] == significant_lines(s)[0]);
            }
            if i < s.len() {
                assert(s.subrange(i + 1, s.len() as int) == text@.subrange(start + i + 1, n as int));
            }
        }
        if start + i >= n {
            break;
        }
        proof {
            let rest = significant_lines(s.subrange(i as int + 1, s.len() as int));
            let f = out@.len() - before_len;
            assert forall|k: int| 0 <= k < rest.len() implies significant_lines(text@)[out@.len() + k] == rest[k] by {
                assert(significant_lines(s)[f + k] == rest[k]);
                assert(significant_lines(text@)[before_len + (f + k)] == significant_lines(s)[f + k]);
            }
        }
        start = start + i + 1;
    }
    out
}


/// `<uN as FromStr>::from_str` for a type whose largest value is `max`: an
/// optional `+`, then at least one decimal digit, in range.
pub open spec fn parse_unsigned(s: Seq<char>, max: int) -> Option<int> {
    let body = if s.len() > 0 && s[0] == '+' {
        s.drop_first()
    } else {
        s
    };
    if body.len() > 0 && all_digits(body) && digits_value(body) <= max {
        Some(digits_value(body))
    } else {
        None
    }
}

/// `<iN as FromStr>::from_str` for a type with range `[min, max]`: an
/// optional sign, then at least one decimal digit, in range.
pub open spec fn parse_signed(s: Seq<char>, min: int, max: int) -> Option<int> {
    if s.len() > 0 && s[0] == '-' {
        let body = s.drop_first();
        if body.len() > 0 && all_digits(body) && min <= -digits_value(body) {
            Some(-digits_value(body))
        } else {
            None
        }
    } else {
        parse_unsigned(s, max)
    }
}

proof fn lemma_digits_value_nonneg(s: Seq<char>)
    requires
        all_digits(s),
    ensures
        digits_value(s) >= 0,
    decreases s.len(),
{
    if s.len() > 0 {
        assert(all_digits(s.drop_last())) by {
            assert forall|i: int| 0 <= i < s.drop_last().len() implies is_digit(#[trigger] s.drop_last()[i]) by {
                assert(s.drop_last()[i] == s[i]);
            }
        }
        lemma_digits_value_nonneg(s.drop_last());
        assert(is_digit(s[s.len() - 1]));
    }
}

/// A longer digit string is worth at least as much as its prefix.
proof fn lemma_digits_value_prefix(s: Seq<char>, k: int)
    requires
        all_digits(s),
        0 <= k <= s.len(),
    ensures
        digits_value(s.subrange(0, k)) <= digits_value(s),
    decreases s.len() - k,
{
    if k == s.len() {
        assert(s.subrange(0, k) == s);
    } else {
        let t = s.subrange(0, k + 1);
        assert(all_digits(t)) by {
            assert forall|i: int| 0 <= i < t.len() implies is_digit(#[trigger] t[i]) by {
                assert(t[i] == s[i]);
            }
        }
        lemma_digits_value_prefix(s, k + 1);
        assert(t.drop_last() == s.subrange(0, k));
        lemma_digits_value_nonneg(s.subrange(0, k));
        assert(is_digit(t[k]));
    }
}

/// The value of the decimal digits `v[from..to]`, if they are all digits,
/// there is at least one, and the value fits in a `u64`.
fn parse_digits(v: &Vec<char>, from: usize, to: usize) -> (r: Option<u64>)
    requires
        from <= to <= v@.len(),
    ensures
        ({
            let s = v@.subrange(from as int, to as int);
            match r {
                Some(x) => s.len() > 0 && all_digits(s) && x == digits_value(s),
                None => !(s.len() > 0 && all_digits(s) && digits_value(s) <= u64::MAX),
            }
        }),
{
    let ghost s = v@.subrange(from as int, to as int);
    if from == to {
        return None;
    }
    let mut x: u64 = 0;
    let mut i: usize = from;
    while i < to
        invariant
            from <= i <= to <= v@.len(),
            s == v@.subrange(from as int, to as int),
            all_digits(v@.subrange(from as int, i as int)),
            x == digits_value(v@.subrange(from as int, i as int)),
        decreases to - i,
    {
        let c = v[i];
        let ghost pre = v@.subrange(from as int, i as int);
        let ghost next = v@.subrange(from as int, i + 1);
        proof {
            assert(next.drop_last() == pre);
            assert(next.last() == c);
        }
        if c < '0' || c > '9' {
            proof {
                assert(s[i - from] == c);
            }
            return None;
        }
        let d = (c as u32 - '0' as u32) as u64;
        if x > (u64::MAX - d) / 10 {
            proof {
                assert(all_digits(next)) by {
                    assert forall|q: int| 0 <= q < next.len() implies is_digit(#[trigger] next[q]) by {
                        if q < pre.len() {
                            assert(next[q] == pre[q]);
                        }
                    }
                }
                assert(digits_value(next) == x * 10 + d) by (nonlinear_arith)
                    requires
                        digits_value(next) == digits_value(pre) * 10 + d,
                        x == digits_value(pre),
                ;
                assert(x * 10 + d > u64::MAX) by (nonlinear_arith)
                    requires
                        x > (u64::MAX - d) / 10,
                        d <= 9,
                ;
                if all_digits(s) {
                    assert(next == s.subrange(0, i + 1 - from));
                    lemma_digits_value_prefix(s, i + 1 - from);
                }
            }
            return None;
        }
        proof {
            assert(x * 10 + d <= u64::MAX) by (nonlinear_arith)
                requires
                    x <= (u64::MAX - d) / 10,
                    d <= 9,
            ;
            assert(all_digits(next)) by {
                assert forall|q: int| 0 <= q < next.len() implies is_digit(#[trigger] next[q]) by {
                    if q < pre.len() {
                        assert(next[q] == pre[q]);
                    }
                }
            }
        }
        x = x * 10 + d;
        i = i + 1;
    }
    Some(x)
}

/// `<u64 as FromStr>::from_str` on `v[from..to]`.
pub fn parse_u64(v: &Vec<char>, from: usize, to: usize) -> (r: Option<u64>)
    requires
        from <= to <= v@.len(),
    ensures
        match parse_unsigned(v@.subrange(from as int, to as int), u64::MAX as int) {
            Some(x) => r == Some(x as u64),
            None => r is None,
        },
        r matches Some(y) ==> parse_unsigned(v@.subrange(from as int, to as int), u64::MAX as int) == Some(y as int),
{
    let ghost s = v@.subrange(from as int, to as int);
    proof {
        let body = if s.len() > 0 && s[0] == '+' { s.drop_first() } else { s };
        if body.len() > 0 && all_digits(body) {
            lemma_digits_value_nonneg(body);
        }
        if s.len() > 0 {
            assert(s[0] == v@[from as int]);
        }
    }
    if from < to && v[from] == '+' {
        proof {
            assert(s.drop_first() == v@.subrange(from + 1, to as int));
        }
        parse_digits(v, from + 1, to)
    } else {
        parse_digits(v, from, to)
    }
}

/// `<usize as FromStr>::from_str` on `v[from..to]`.
pub fn parse_usize(v: &Vec<char>, from: usize, to: usize) -> (r: Option<usize>)
    requires
        from <= to <= v@.len(),
    ensures
        match parse_unsigned(v@.subrange(from as int, to as int), usize::MAX as int) {
            Some(x) => r == Some(x as usize),
            None => r is None,
        },
        r matches Some(y) ==> parse_unsigned(v@.subrange(from as int, to as int), usize::MAX as int) == Some(y as int),
{
    let ghost s = v@.subrange(from as int, to as int);
    let ghost body = if s.len() > 0 && s[0] == '+' { s.drop_first() } else { s };
    proof {
        if body.len() > 0 && all_digits(body) {
            lemma_digits_value_nonneg(body);
        }
    }
    match parse_u64(v, from, to) {
        Some(x) => {
            if x as u128 <= usize::MAX as u128 {
                Some(x as usize)
            } else {
                None
            }
        },
        None => None,
    }
}

/// `<i64 as FromStr>::from_str` on `v[from..to]`.
pub fn parse_i64(v: &Vec<char>, from: usize, to: usize) -> (r: Option<i64>)
    requires
        from <= to <= v@.len(),
    ensures
        match parse_signed(v@.subrange(from as int, to as int), i64::MIN as int, i64::MAX as int) {
            Some(x) => r == Some(x as i64),
            None => r is None,
        },
        r matches Some(y) ==> parse_signed(v@.subrange(from as int, to as int), i64::MIN as int, i64::MAX as int) == Some(y as int),
{
    let ghost s = v@.subrange(from as int, to as int);
    proof {
        let body = if s.len() > 0 && (s[0] == '+' || s[0] == '-') { s.drop_first() } else { s };
        if body.len() > 0 && all_digits(body) {
            lemma_digits_value_nonneg(body);
        }
        if s.len() > 0 {
            assert(s[0] == v@[from as int]);
        }
    }
    if from < to && v[from] == '-' {
        proof {
            assert(s.drop_first() == v@.subrange(from + 1, to as int));
        }
        match parse_digits(v, from + 1, to) {
            Some(m) => {
                if m <= 9223372036854775808u64 {
                    if m == 9223372036854775808u64 {
                        Some(i64::MIN)
                    } else {
                        Some(-(m as i64))
                    }
                } else {
                    None
                }
            },
            None => None,
        }
    } else {
        match parse_u64(v, from, to) {
            Some(x) => {
                if x <= i64::MAX as u64 {
                    Some(x as i64)
                } else {
                    None
                }
            },
            None => None,
        }
    }
}

/// `<i32 as FromStr>::from_str` on `v[from..to]`.
pub fn parse_i32(v: &Vec<char>, from: usize, to: usize) -> (r: Option<i32>)
    requires
        from <= to <= v@.len(),
    ensures
        match parse_signed(v@.subrange(from as int, to as int), i32::MIN as int, i32::MAX as int) {
            Some(x) => r == Some(x as i32),
            None => r is None,
        },
        r matches Some(y) ==> parse_signed(v@.subrange(from as int, to as int), i32::MIN as int, i32::MAX as int) == Some(y as int),
{
    let ghost s = v@.subrange(from as int, to as int);
    proof {
        let body = if s.len() > 0 && (s[0] == '+' || s[0] == '-') { s.drop_first() } else { s };
        if body.len() > 0 && all_digits(body) {
            lemma_digits_value_nonneg(body);
        }
    }
    match parse_i64(v, from, to) {
        Some(x) => {
            if i32::MIN as i64 <= x && x <= i32::MAX as i64 {
                Some(x as i32)
            } else {
                None
            }
        },
        None => None,
    }
}

/// Number of consecutive digits of `s` starting at `i`.
pub open spec fn digit_run(s: Seq<char>, i: int) -> nat
    decreases s.len() - i,
{
    if 0 <= i < s.len() && is_digit(s[i]) {
        1 + digit_run(s, i + 1)
    } else {
        0
    }
}

pub open spec fn is_sign(c: char) -> bool {
    c == '+' || c == '-'
}

/// The text is a decimal number with a point, in the syntax that
/// `f64::from_str` accepts: an optional sign, digits with one `.` and at
/// least one digit on either side of it, and an optional exponent (`e` or
/// `E`, an optional sign, at least one digit).
pub open spec fn is_pointed_decimal(s: Seq<char>) -> bool {
    let i0: int = if s.len() > 0 && is_sign(s[0]) {
        1
    } else {
        0
    };
    let p = i0 + digit_run(s, i0);
    let e = p + 1 + digit_run(s, p + 1);
    let j: int = if e + 1 < s.len() && is_sign(s[e + 1]) {
        e + 2
    } else {
        e + 1
    };
    &&& p < s.len()
    &&& s[p] == '.'
    &&& digit_run(s, i0) + digit_run(s, p + 1) >= 1
    &&& (e == s.len() || ((s[e] == 'e' || s[e] == 'E') && digit_run(s, j) >= 1 && j + digit_run(s, j) == s.len()))
}

proof fn lemma_digit_run(s: Seq<char>, i: int)
    requires
        0 <= i <= s.len(),
    ensures
        i + digit_run(s, i) <= s.len(),
        forall|k: int| i <= k < i + digit_run(s, i) ==> is_digit(s[k]),
        i + digit_run(s, i) < s.len() ==> !is_digit(s[i + digit_run(s, i)]),
    decreases s.len() - i,
{
    if i < s.len() && is_digit(s[i]) {
        lemma_digit_run(s, i + 1);
    }
}

/// Index after the digits of `v[i..to]`, relative to `from`.
fn skip_digits(v: &Vec<char>, from: usize, i: usize, to: usize) -> (r: usize)
    requires
        from <= i <= to <= v@.len(),
    ensures
        r == i + digit_run(v@.subrange(from as int, to as int), i - from),
        r <= to,
{
    let ghost s = v@.subrange(from as int, to as int);
    proof { lemma_digit_run(s, i - from); }
    let mut k: usize = i;
    while k < to && '0' <= v[k] && v[k] <= '9'
        invariant
            from <= i <= k <= to <= v@.len(),
            s == v@.subrange(from as int, to as int),
            k - from <= i - from + digit_run(s, i - from),
            i - from + digit_run(s, i - from) <= s.len(),
            forall|q: int| i - from <= q < i - from + digit_run(s, i - from) ==> is_digit(s[q]),
            i - from + digit_run(s, i - from) < s.len() ==> !is_digit(s[i - from + digit_run(s, i - from)]),
        decreases to - k,
    {
        assert(s[k - from] == v@[k as int]);
        k = k + 1;
    }
    if k < to {
        assert(s[k - from] == v@[k as int]);
    }
    k
}

/// Whether `v[from..to]` is a pointed decimal number.
pub fn pointed_decimal(v: &Vec<char>, from: usize, to: usize) -> (b: bool)
    requires
        from <= to <= v@.len(),
    ensures
        b == is_pointed_decimal(v@.subrange(from as int, to as int)),
{
    let ghost s = v@.subrange(from as int, to as int);
    let i0 = if from < to && (v[from] == '+' || v[from] == '-') { from + 1 } else { from };
    proof {
        if from < to {
            assert(s[0] == v@[from as int]);
        }
    }
    let p = skip_digits(v, from, i0, to);
    if p >= to || v[p] != '.' {
        proof {
            if p < to {
                assert(s[p - from] == v@[p as int]);
            }
        }
        return false;
    }
    proof { assert(s[p - from] == v@[p as int]); }
    let e = skip_digits(v, from, p + 1, to);
    if p - i0 + (e - p - 1) == 0 {
        return false;
    }
    if e == to {
        return true;
    }
    proof { assert(s[e - from] == v@[e as int]); }
    if v[e] != 'e' && v[e] != 'E' {
        return false;
    }
    let j = if e + 1 < to && (v[e + 1] == '+' || v[e + 1] == '-') { e + 2 } else { e + 1 };
    proof {
        if e + 1 < to {
            assert(s[e + 1 - from] == v@[e + 1]);
        }
    }
    let end = skip_digits(v, from, j, to);
    end > j && end == to
}


/// Whether two texts hold the same characters.
pub fn same_text(a: &str, b: &str) -> (r: bool)
    ensures
        r == (a@ == b@),
{
    let n = a.unicode_len();
    if n != b.unicode_len() {
        return false;
    }
    let mut i: usize = 0;
    while i < n
        invariant
            i <= n,
            n == a@.len(),
            n == b@.len(),
            forall|k: int| 0 <= k < i ==> a@[k] == b@[k],
        decreases n - i,
    {
        if a.get_char(i) != b.get_char(i) {
            return false;
        }
        i = i + 1;
    }
    proof {
        assert(a@ =~= b@);
    }
    true
}

/// A parsed integer lies in the range it was parsed for.
pub proof fn lemma_parse_signed_range(s: Seq<char>, min: int, max: int)
    requires
        min <= 0 <= max,
    ensures
        parse_signed(s, min, max) matches Some(v) ==> min <= v <= max,
        parse_unsigned(s, max) matches Some(v) ==> 0 <= v <= max,
{
    if s.len() > 0 {
        let b1 = s.drop_first();
        if b1.len() > 0 && all_digits(b1) {
            lemma_digits_value_nonneg(b1);
        }
    }
    if s.len() > 0 && all_digits(s) {
        lemma_digits_value_nonneg(s);
    }
}

} // verus!
