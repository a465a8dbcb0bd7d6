//! A duration that carries its unit in the value.
//!
//! Text form: a decimal number, optional whitespace, then one of the units
//! `ns | us | ms | s` (`µs` is read as `us`). Decimals are accepted (`1.5ms`).
//! A bare number is an error, never a guess: guessing the unit is how a value
//! ends up a thousand times wrong.
//!
//! The value is held as whole nanoseconds in an `i64`. Decimal text is
//! converted exactly and rounded half away from zero to the nanosecond.

use vstd::prelude::*;
use crate::text::{
    trim, trim_start, trim_end, trimmed_chars, skip_ws, skip_ws_back, from_chars, push_str,
    push_int, int_text, nat_text, push_nat, owned,
};

verus! {

/// A duration with an explicit unit, as whole nanoseconds.
#[derive(Debug, Clone, Copy, PartialEq, Eq, Structural, PartialOrd, Ord, Hash, Default)]
pub struct Duration {
    nanos: i64,
}

impl View for Duration {
    type V = int;

    /// The number of nanoseconds.
    closed spec fn view(&self) -> int {
        self.nanos as int
    }
}

/// Why a duration string could not be parsed. Each variant names what the
/// author should write instead.
#[derive(Debug, Clone, PartialEq, Eq)]
pub enum DurationParseError {
    MissingUnit(String),
    Malformed(String),
    UnknownUnit { unit: String },
    OutOfRange(String),
}

/// What a [`DurationParseError`] says, as values.
pub enum DurationParseErrorView {
    MissingUnit(Seq<char>),
    Malformed(Seq<char>),
    UnknownUnit { unit: Seq<char> },
    OutOfRange(Seq<char>),
}

impl View for DurationParseError {
    type V = DurationParseErrorView;

    open spec fn view(&self) -> DurationParseErrorView {
        match self {
            DurationParseError::MissingUnit(t) => DurationParseErrorView::MissingUnit(t@),
            DurationParseError::Malformed(t) => DurationParseErrorView::Malformed(t@),
            DurationParseError::UnknownUnit { unit } => DurationParseErrorView::UnknownUnit {
                unit: unit@,
            },
            DurationParseError::OutOfRange(t) => DurationParseErrorView::OutOfRange(t@),
        }
    }
}

/// The human-readable text of a [`DurationParseError`].
pub open spec fn duration_error_text(e: DurationParseErrorView) -> Seq<char> {
    match e {
        DurationParseErrorView::MissingUnit(t) => "`"@ + t
            + "` has no unit — write it with one of ns, us, ms, s (for example `"@ + t
            + "ms`). A bare number is rejected on purpose: guessing the unit is how a value ends up 1000x wrong"@,
        DurationParseErrorView::Malformed(t) => "`"@ + t
            + "` is not a number followed by a unit (expected e.g. `12ms`, `1.5s`, `800us`)"@,
        DurationParseErrorView::UnknownUnit { unit } => "`"@ + unit
            + "` is not a duration unit — use ns, us, ms or s"@,
        DurationParseErrorView::OutOfRange(t) => "`"@ + t
            + "` does not fit in the supported range (about 292 years)"@,
    }
}

impl DurationParseError {
    /// The message this error reads as.
    pub fn message(&self) -> (r: String)
        ensures
            r@ == duration_error_text(self@),
    {
        let mut s = String::new();
        match self {
            DurationParseError::MissingUnit(t) => {
                push_str(&mut s, "`");
                push_str(&mut s, t.as_str());
                push_str(
                    &mut s,
                    "` has no unit — write it with one of ns, us, ms, s (for example `",
                );
                push_str(&mut s, t.as_str());
                push_str(
                    &mut s,
                    "ms`). A bare number is rejected on purpose: guessing the unit is how a value ends up 1000x wrong",
                );
            },
            DurationParseError::Malformed(t) => {
                push_str(&mut s, "`");
                push_str(&mut s, t.as_str());
                push_str(
                    &mut s,
                    "` is not a number followed by a unit (expected e.g. `12ms`, `1.5s`, `800us`)",
                );
            },
            DurationParseError::UnknownUnit { unit } => {
                push_str(&mut s, "`");
                push_str(&mut s, unit.as_str());
                push_str(&mut s, "` is not a duration unit — use ns, us, ms or s");
            },
            DurationParseError::OutOfRange(t) => {
                push_str(&mut s, "`");
                push_str(&mut s, t.as_str());
                push_str(&mut s, "` does not fit in the supported range (about 292 years)");
            },
        }
        assert(s@ =~= duration_error_text(self@));
        s
    }
}

// ── The text grammar ──

pub open spec fn is_digit(c: char) -> bool {
    '0' <= c <= '9'
}

/// A character that can continue the number part.
pub open spec fn number_char(c: char) -> bool {
    is_digit(c) || c == '.' || c == '-' || c == '+'
}

/// The first position at or after `i` whose character cannot continue a number.
pub open spec fn number_end(t: Seq<char>, i: int) -> Option<int>
    decreases t.len() - i,
{
    if i < 0 || i >= t.len() {
        None
    } else if !number_char(t[i]) {
        Some(i)
    } else {
        number_end(t, i + 1)
    }
}

pub open spec fn all_digits(x: Seq<char>) -> bool {
    forall|i: int| 0 <= i < x.len() ==> is_digit(#[trigger] x[i])
}

pub open spec fn digit_value(c: char) -> nat {
    ((c as int) - ('0' as int)) as nat
}

/// The value of a string of decimal digits.
pub open spec fn digits_value(x: Seq<char>) -> nat
    decreases x.len(),
{
    if x.len() == 0 {
        0
    } else {
        digits_value(x.drop_last()) * 10 + digit_value(x.last())
    }
}

pub open spec fn pow10(k: nat) -> nat
    decreases k,
{
    if k == 0 {
        1
    } else {
        10 * pow10((k - 1) as nat)
    }
}

/// The number without its sign.
pub open spec fn unsigned_part(num: Seq<char>) -> Seq<char> {
    if num.len() > 0 && (num[0] == '+' || num[0] == '-') {
        num.drop_first()
    } else {
        num
    }
}

pub open spec fn is_negative(num: Seq<char>) -> bool {
    num.len() > 0 && num[0] == '-'
}

/// The position of the first `.` at or after `i`.
pub open spec fn dot_from(b: Seq<char>, i: int) -> Option<int>
    decreases b.len() - i,
{
    if i < 0 || i >= b.len() {
        None
    } else if b[i] == '.' {
        Some(i)
    } else {
        dot_from(b, i + 1)
    }
}

/// The digits before the decimal point.
pub open spec fn int_digits(b: Seq<char>) -> Seq<char> {
    match dot_from(b, 0) {
        Some(p) => b.take(p),
        None => b,
    }
}

/// The digits after the decimal point.
pub open spec fn frac_digits(b: Seq<char>) -> Seq<char> {
    match dot_from(b, 0) {
        Some(p) => b.skip(p + 1),
        None => Seq::empty(),
    }
}

/// A decimal number: an optional sign, digits, and at most one point, with
/// at least one digit.
pub open spec fn decimal_ok(num: Seq<char>) -> bool {
    let b = unsigned_part(num);
    &&& all_digits(int_digits(b))
    &&& all_digits(frac_digits(b))
    &&& int_digits(b).len() + frac_digits(b).len() > 0
}

/// The power of ten nanoseconds a unit stands for.
pub open spec fn unit_exponent(u: Seq<char>) -> Option<nat> {
    if u == "ns"@ {
        Some(0)
    } else if u == "us"@ || u == "µs"@ {
        Some(3)
    } else if u == "ms"@ {
        Some(6)
    } else if u == "s"@ {
        Some(9)
    } else {
        None
    }
}

/// The first `k` fraction digits, padded with zeros.
pub open spec fn pad_to(f: Seq<char>, k: nat) -> Seq<char> {
    Seq::new(k, |i: int| if i < f.len() { f[i] } else { '0' })
}

/// Whole nanoseconds, truncated, of the unsigned number scaled by `10^k`.
pub open spec fn magnitude(num: Seq<char>, k: nat) -> nat {
    let b = unsigned_part(num);
    digits_value(int_digits(b)) * pow10(k) + digits_value(pad_to(frac_digits(b), k))
}

/// The digit after the last kept one is 5 or more: round away from zero.
pub open spec fn rounds_up(num: Seq<char>, k: nat) -> bool {
    let f = frac_digits(unsigned_part(num));
    f.len() > k && digit_value(f[k as int]) >= 5
}

/// The largest magnitude that can be held, `2^63`.
pub open spec fn nanos_bound() -> nat {
    0x8000_0000_0000_0000
}

/// The signed, rounded nanosecond value (saturating at `i64::MAX`).
pub open spec fn nanos_value(num: Seq<char>, k: nat) -> int {
    let r = magnitude(num, k) + if rounds_up(num, k) {
        1int
    } else {
        0int
    };
    if is_negative(num) {
        -r
    } else if r > i64::MAX {
        i64::MAX as int
    } else {
        r
    }
}

/// What parsing `s` gives: the nanosecond count, or the error.
pub open spec fn duration_outcome(s: Seq<char>) -> Result<int, DurationParseErrorView> {
    let t = trim(s);
    if t.len() == 0 {
        Err(DurationParseErrorView::Malformed(s))
    } else {
        match number_end(t, 0) {
            None => Err(DurationParseErrorView::MissingUnit(t)),
            Some(p) => {
                let num = t.take(p);
                let unit = trim(t.skip(p));
                if num.len() == 0 || !decimal_ok(num) {
                    Err(DurationParseErrorView::Malformed(s))
                } else {
                    match unit_exponent(unit) {
                        None => Err(DurationParseErrorView::UnknownUnit { unit }),
                        Some(k) => if magnitude(num, k) >= nanos_bound() {
                            Err(DurationParseErrorView::OutOfRange(s))
                        } else {
                            Ok(nanos_value(num, k))
                        },
                    }
                }
            },
        }
    }
}

// ── Canonical text ──

/// The coarsest unit that keeps the value whole: `12ms`, `1500us`, `0s`.
pub open spec fn canonical_text(n: int) -> Seq<char> {
    if n == 0 {
        "0s"@
    } else if n % 1_000_000_000 == 0 {
        int_text(n / 1_000_000_000) + "s"@
    } else if n % 1_000_000 == 0 {
        int_text(n / 1_000_000) + "ms"@
    } else if n % 1_000 == 0 {
        int_text(n / 1_000) + "us"@
    } else {
        int_text(n) + "ns"@
    }
}

/// `i64::saturating_mul(us, 1000)`.
pub open spec fn saturating_micros(us: int) -> int {
    if us * 1000 > i64::MAX {
        i64::MAX as int
    } else if us * 1000 < i64::MIN {
        i64::MIN as int
    } else {
        us * 1000
    }
}

impl Duration {
    pub fn from_nanos(nanos: i64) -> (r: Self)
        ensures
            r@ == nanos,
    {
        Duration { nanos }
    }

    pub fn as_nanos(self) -> (r: i64)
        ensures
            r == self@,
    {
        self.nanos
    }

    /// Build from microseconds, saturating at the ends of the range.
    pub fn from_micros(us: i64) -> (r: Self)
        ensures
            r@ == saturating_micros(us as int),
    {
        let nanos: i64 = if us > 9_223_372_036_854_775i64 {
            i64::MAX
        } else if us < -9_223_372_036_854_775i64 {
            i64::MIN
        } else {
            us * 1000
        };
        Duration { nanos }
    }

    /// Canonical text: the coarsest unit that keeps the value an integer.
    pub fn canonical(self) -> (r: String)
        ensures
            r@ == canonical_text(self@),
    {
        let n = self.nanos;
        let mut out = String::new();
        if n == 0 {
            push_str(&mut out, "0s");
            return out;
        }
        let (div, suffix): (i64, &str) = if n % 1_000_000_000 == 0 {
            (1_000_000_000, "s")
        } else if n % 1_000_000 == 0 {
            (1_000_000, "ms")
        } else if n % 1_000 == 0 {
            (1_000, "us")
        } else {
            (1, "ns")
        };
        let q: i64 = n / div;
        push_int(&mut out, q);
        push_str(&mut out, suffix);
        out
    }

    /// Parse duration text (see the module documentation for the grammar).
    pub fn parse_text(s: &str) -> (r: Result<Self, DurationParseError>)
        ensures
            match r {
                Ok(d) => duration_outcome(s@) == Ok::<int, DurationParseErrorView>(d@),
                Err(e) => duration_outcome(s@) == Err::<int, DurationParseErrorView>(e@),
            },
    {
        let t = trimmed_chars(s);
        let len = t.len();
        if len == 0 {
            return Err(DurationParseError::Malformed(owned(s)));
        }
        let p = match first_non_number(t.as_slice()) {
            Some(p) => p,
            None => return Err(DurationParseError::MissingUnit(from_chars(t.as_slice()))),
        };
        let ghost num = t@.take(p as int);
        let unit_lo = skip_ws(t.as_slice(), p);
        let unit_hi = skip_ws_back(t.as_slice(), unit_lo, len);
        proof {
            assert(t@.skip(p as int) =~= t@.subrange(p as int, len as int));
        }
        if p == 0 {
            return Err(DurationParseError::Malformed(owned(s)));
        }
        let number = match read_number(t.as_slice(), p) {
            Some(x) => x,
            None => return Err(DurationParseError::Malformed(owned(s))),
        };
        let k: u32 = match unit_exponent_of(t.as_slice(), unit_lo, unit_hi) {
            Some(k) => k,
            None => {
                let mut unit: Vec<char> = Vec::new();
                let mut i = unit_lo;
                while i < unit_hi
                    invariant
                        unit_lo <= i <= unit_hi <= t@.len(),
                        unit@ == t@.subrange(unit_lo as int, i as int),
                    decreases unit_hi - i,
                {
                    unit.push(t[i]);
                    i += 1;
                    assert(unit@ =~= t@.subrange(unit_lo as int, i as int));
                }
                return Err(DurationParseError::UnknownUnit { unit: from_chars(unit.as_slice()) });
            },
        };
        match scaled_nanos(t.as_slice(), p, number, k) {
            Some(n) => Ok(Duration { nanos: n }),
            None => Err(DurationParseError::OutOfRange(owned(s))),
        }
    }
}

impl std::str::FromStr for Duration {
    type Err = DurationParseError;

    fn from_str(s: &str) -> (r: Result<Self, Self::Err>)
        ensures
            match r {
                Ok(d) => duration_outcome(s@) == Ok::<int, DurationParseErrorView>(d@),
                Err(e) => duration_outcome(s@) == Err::<int, DurationParseErrorView>(e@),
            },
    {
        Duration::parse_text(s)
    }
}

// ── Parsing steps ──

fn first_non_number(t: &[char]) -> (r: Option<usize>)
    ensures
        match r {
            Some(p) => number_end(t@, 0) == Some(p as int) && p < t@.len(),
            None => number_end(t@, 0) is None,
        },
{
    let mut i: usize = 0;
    while i < t.len()
        invariant
            i <= t@.len(),
            number_end(t@, 0) == number_end(t@, i as int),
        decreases t@.len() - i,
    {
        let c = t[i];
        if !(('0' <= c && c <= '9') || c == '.' || c == '-' || c == '+') {
            return Some(i);
        }
        i += 1;
    }
    None
}

/// The parts of a well-formed number `t[0..p]`: where its digits start, where
/// its point is (or `p`), whether it is negative.
pub struct NumberParts {
    pub start: usize,
    pub dot: usize,
    pub negative: bool,
}

fn read_number(t: &[char], p: usize) -> (r: Option<NumberParts>)
    requires
        0 < p <= t@.len(),
    ensures
        decimal_ok(t@.take(p as int)) <==> r is Some,
        match r {
            Some(np) => {
                let b = unsigned_part(t@.take(p as int));
                &&& np.start <= np.dot <= p
                &&& is_negative(t@.take(p as int)) == np.negative
                &&& b == t@.subrange(np.start as int, p as int)
                &&& int_digits(b) == t@.subrange(np.start as int, np.dot as int)
                &&& frac_digits(b) == if np.dot < p {
                    t@.subrange(np.dot + 1, p as int)
                } else {
                    Seq::<char>::empty()
                }
            },
            None => true,
        },
{
    let ghost num = t@.take(p as int);
    let negative = t[0] == '-';
    let start: usize = if t[0] == '+' || t[0] == '-' {
        1
    } else {
        0
    };
    let ghost b = unsigned_part(num);
    assert(b =~= t@.subrange(start as int, p as int));
    // Find the point.
    let mut d = start;
    while d < p && t[d] != '.'
        invariant
            start <= d <= p <= t@.len(),
            b == t@.subrange(start as int, p as int),
            dot_from(b, 0) == dot_from(b, d - start),
        decreases p - d,
    {
        d += 1;
    }
    assert(int_digits(b) == t@.subrange(start as int, d as int)) by {
        if d < p {
            assert(b[d - start] == '.');
            assert(dot_from(b, 0) == Some((d - start) as int));
            assert(b.take(d - start) =~= t@.subrange(start as int, d as int));
        } else {
            assert(dot_from(b, 0) is None);
        }
    }
    assert(frac_digits(b) == if d < p {
        t@.subrange(d + 1, p as int)
    } else {
        Seq::<char>::empty()
    }) by {
        if d < p {
            assert(b[d - start] == '.');
            assert(dot_from(b, 0) == Some((d - start) as int));
            assert(b.skip(d - start + 1) =~= t@.subrange(d + 1, p as int));
        } else {
            assert(dot_from(b, 0) is None);
        }
    }
    // Every other character must be a digit.
    let mut i = start;
    while i < p
        invariant
            start <= i <= p <= t@.len(),
            start <= d <= p,
            b == unsigned_part(num),
            num == t@.take(p as int),
            int_digits(b) == t@.subrange(start as int, d as int),
            frac_digits(b) == if d < p {
                t@.subrange(d + 1, p as int)
            } else {
                Seq::<char>::empty()
            },
            forall|j: int| start <= j < i && j != d ==> is_digit(#[trigger] t@[j]),
        decreases p - i,
    {
        if i != d && !('0' <= t[i] && t[i] <= '9') {
            proof {
                if i < d {
                    assert(int_digits(b)[i - start] == t@[i as int]);
                } else {
                    assert(frac_digits(b)[i - d - 1] == t@[i as int]);
                }
            }
            return None;
        }
        i += 1;
    }
    if p - start <= 1 && d < p {
        // Only a point.
        assert(int_digits(b).len() + frac_digits(b).len() == 0);
        return None;
    }
    if start == p {
        assert(b.len() == 0);
        return None;
    }
    proof {
        assert forall|j: int| 0 <= j < int_digits(b).len() implies is_digit(#[trigger] int_digits(b)[j]) by {
            assert(int_digits(b)[j] == t@[start + j]);
        }
        assert forall|j: int| 0 <= j < frac_digits(b).len() implies is_digit(#[trigger] frac_digits(b)[j]) by {
            assert(frac_digits(b)[j] == t@[d + 1 + j]);
        }
    }
    Some(NumberParts { start, dot: d, negative })
}

fn unit_exponent_of(t: &[char], lo: usize, hi: usize) -> (r: Option<u32>)
    requires
        lo <= hi <= t@.len(),
    ensures
        match r {
            Some(k) => unit_exponent(t@.subrange(lo as int, hi as int)) == Some(k as nat) && k <= 9,
            None => unit_exponent(t@.subrange(lo as int, hi as int)) is None,
        },
{
    let ghost u = t@.subrange(lo as int, hi as int);
    proof {
        reveal_strlit("ns");
        reveal_strlit("us");
        reveal_strlit("µs");
        reveal_strlit("ms");
        reveal_strlit("s");
    }
    let n = hi - lo;
    if n == 2 && t[lo + 1] == 's' {
        let c = t[lo];
        if c == 'n' {
            assert(u =~= "ns"@);
            return Some(0);
        } else if c == 'u' || c == 'µ' {
            assert(u[0] == c);
            assert(u != "ns"@) by {
                assert("ns"@[0] == 'n');
            }
            assert(c == 'u' ==> u =~= "us"@);
            assert(c == 'µ' ==> u =~= "µs"@);
            return Some(3);
        } else if c == 'm' {
            assert(u[0] == 'm');
            assert(u != "ns"@) by {
                assert("ns"@[0] == 'n');
            }
            assert(u != "us"@) by {
                assert("us"@[0] == 'u');
            }
            assert(u != "µs"@) by {
                assert("µs"@[0] == 'µ');
            }
            assert(u =~= "ms"@);
            return Some(6);
        }
    } else if n == 1 && t[lo] == 's' {
        assert(u =~= "s"@);
        return Some(9);
    }
    proof {
        assert("ns"@ =~= seq!['n', 's']);
        assert("us"@ =~= seq!['u', 's']);
        assert("µs"@ =~= seq!['µ', 's']);
        assert("ms"@ =~= seq!['m', 's']);
        assert("s"@ =~= seq!['s']);
        if n == 2 {
            assert(u[0] == t@[lo as int] && u[1] == t@[lo + 1]);
        }
        if n == 1 {
            assert(u[0] == t@[lo as int]);
        }
    }
    None
}

proof fn lemma_digits_step(x: Seq<char>, i: int)
    requires
        0 <= i < x.len(),
    ensures
        digits_value(x.take(i + 1)) == digits_value(x.take(i)) * 10 + digit_value(x[i]),
{
    assert(x.take(i + 1).drop_last() =~= x.take(i));
}

proof fn lemma_digits_grow(x: Seq<char>, i: int, j: int)
    requires
        0 <= i <= j <= x.len(),
    ensures
        digits_value(x.take(i)) <= digits_value(x.take(j)),
    decreases j - i,
{
    if i < j {
        lemma_digits_grow(x, i, j - 1);
        lemma_digits_step(x, j - 1);
    }
}

proof fn lemma_pow10_bound(k: nat)
    requires
        k <= 9,
    ensures
        1 <= pow10(k) <= 1_000_000_000,
{
    reveal_with_fuel(pow10, 10);
}

proof fn lemma_pad_bound(f: Seq<char>, k: nat)
    requires
        all_digits(f),
    ensures
        digits_value(pad_to(f, k)) < pow10(k),
    decreases k,
{
    let x = pad_to(f, k);
    if k > 0 {
        assert(x.drop_last() =~= pad_to(f, (k - 1) as nat));
        lemma_pad_bound(f, (k - 1) as nat);
        assert(is_digit(x.last()));
    }
}

/// The value of the digits `t[lo..hi]`, or `None` once it reaches `2^64`.
fn digits_capped(t: &[char], lo: usize, hi: usize) -> (r: Option<u128>)
    requires
        lo <= hi <= t@.len(),
        all_digits(t@.subrange(lo as int, hi as int)),
    ensures
        match r {
            Some(v) => v == digits_value(t@.subrange(lo as int, hi as int)) && v < 0x1_0000_0000_0000_0000,
            None => digits_value(t@.subrange(lo as int, hi as int)) >= 0x1_0000_0000_0000_0000,
        },
{
    let ghost x = t@.subrange(lo as int, hi as int);
    let mut acc: u128 = 0;
    let mut i = lo;
    assert(x.take(0) =~= Seq::<char>::empty());
    while i < hi
        invariant
            lo <= i <= hi <= t@.len(),
            x == t@.subrange(lo as int, hi as int),
            all_digits(x),
            acc == digits_value(x.take(i - lo)),
            acc < 0x1_0000_0000_0000_0000,
        decreases hi - i,
    {
        proof {
            lemma_digits_step(x, i - lo);
            assert(x[i - lo] == t@[i as int]);
            assert(is_digit(x[i - lo]));
        }
        let dv = (t[i] as u32 - '0' as u32) as u128;
        acc = acc * 10 + dv;
        i += 1;
        if acc >= 0x1_0000_0000_0000_0000 {
            proof {
                lemma_digits_grow(x, i - lo, x.len() as int);
                assert(x.take(x.len() as int) =~= x);
            }
            return None;
        }
    }
    assert(x.take(hi - lo) =~= x);
    Some(acc)
}

/// The value of the first `k` digits of `t[lo..hi]`, padded with zeros.
fn padded_value(t: &[char], lo: usize, hi: usize, k: u32) -> (r: u128)
    requires
        lo <= hi <= t@.len(),
        k <= 9,
        all_digits(t@.subrange(lo as int, hi as int)),
    ensures
        r == digits_value(pad_to(t@.subrange(lo as int, hi as int), k as nat)),
        r < 1_000_000_000,
{
    let ghost f = t@.subrange(lo as int, hi as int);
    let ghost x = pad_to(f, k as nat);
    let mut acc: u128 = 0;
    let mut j: u32 = 0;
    assert(x.take(0) =~= Seq::<char>::empty());
    proof {
        lemma_pad_bound(f, k as nat);
        lemma_pow10_bound(k as nat);
    }
    while j < k
        invariant
            j <= k <= 9,
            lo <= hi <= t@.len(),
            f == t@.subrange(lo as int, hi as int),
            x == pad_to(f, k as nat),
            all_digits(f),
            acc == digits_value(x.take(j as int)),
            digits_value(x) < 1_000_000_000,
        decreases k - j,
    {
        proof {
            lemma_digits_step(x, j as int);
            lemma_digits_grow(x, j + 1, x.len() as int);
            assert(x.take(x.len() as int) =~= x);
        }
        let dv: u128 = if (j as usize) < hi - lo {
            assert(x[j as int] == t@[lo + j]);
            assert(is_digit(f[j as int]));
            (t[lo + j as usize] as u32 - '0' as u32) as u128
        } else {
            0
        };
        acc = acc * 10 + dv;
        j += 1;
    }
    assert(x.take(k as int) =~= x);
    acc
}

fn pow10_of(k: u32) -> (r: u128)
    requires
        k <= 9,
    ensures
        r == pow10(k as nat),
{
    let mut r: u128 = 1;
    let mut j: u32 = 0;
    while j < k
        invariant
            j <= k <= 9,
            r == pow10(j as nat),
            r <= 1_000_000_000,
        decreases k - j,
    {
        proof {
            lemma_pow10_bound((j + 1) as nat);
        }
        r = r * 10;
        j += 1;
    }
    r
}

/// The rounded, signed nanosecond count of the number `t[0..p]` in a unit of
/// `10^k` nanoseconds, or `None` when it is out of range.
fn scaled_nanos(t: &[char], p: usize, np: NumberParts, k: u32) -> (r: Option<i64>)
    requires
        0 < p <= t@.len(),
        k <= 9,
        decimal_ok(t@.take(p as int)),
        ({
            let b = unsigned_part(t@.take(p as int));
            &&& np.start <= np.dot <= p
            &&& is_negative(t@.take(p as int)) == np.negative
            &&& int_digits(b) == t@.subrange(np.start as int, np.dot as int)
            &&& frac_digits(b) == if np.dot < p {
                t@.subrange(np.dot + 1, p as int)
            } else {
                Seq::<char>::empty()
            }
        }),
    ensures
        match r {
            Some(n) => magnitude(t@.take(p as int), k as nat) < nanos_bound() && n == nanos_value(
                t@.take(p as int),
                k as nat,
            ),
            None => magnitude(t@.take(p as int), k as nat) >= nanos_bound(),
        },
{
    let ghost num = t@.take(p as int);
    let ghost b = unsigned_part(num);
    let ghost f = frac_digits(b);
    let frac_lo: usize = if np.dot < p {
        np.dot + 1
    } else {
        p
    };
    assert(f =~= t@.subrange(frac_lo as int, p as int));
    let ip = match digits_capped(t, np.start, np.dot) {
        Some(v) => v,
        None => {
            proof {
                lemma_pow10_bound(k as nat);
                assert(digits_value(int_digits(b)) * pow10(k as nat) >= digits_value(int_digits(b)))
                    by (nonlinear_arith)
                    requires
                        pow10(k as nat) >= 1,
                ;
            }
            return None;
        },
    };
    let scale = pow10_of(k);
    let fp = padded_value(t, frac_lo, p, k);
    proof {
        lemma_pow10_bound(k as nat);
        assert(ip * scale <= 0x1_0000_0000_0000_0000 * 1_000_000_000) by (nonlinear_arith)
            requires
                ip < 0x1_0000_0000_0000_0000,
                scale <= 1_000_000_000,
        ;
    }
    let m: u128 = ip * scale + fp;
    assert(m == magnitude(num, k as nat));
    if m >= 0x8000_0000_0000_0000 {
        return None;
    }
    let up: bool = (k as usize) < p - frac_lo && t[frac_lo + k as usize] >= '5';
    proof {
        if (k as usize) < p - frac_lo {
            assert(f[k as int] == t@[frac_lo + k]);
            assert(is_digit(f[k as int]));
        }
        assert(up == rounds_up(num, k as nat));
    }
    let r: u128 = if up {
        m + 1
    } else {
        m
    };
    let n: i64 = if np.negative {
        -(r as i128) as i64
    } else if r > 0x7FFF_FFFF_FFFF_FFFF {
        i64::MAX
    } else {
        r as i64
    };
    Some(n)
}

} // verus!

verus! {

// ── Round trip ──

proof fn lemma_digit_char_value(d: int)
    requires
        0 <= d < 10,
    ensures
        is_digit(crate::text::digit_char(d)),
        digit_value(crate::text::digit_char(d)) == d,
{
}

proof fn lemma_nat_text_digits(m: nat)
    ensures
        nat_text(m).len() > 0,
        all_digits(nat_text(m)),
        digits_value(nat_text(m)) == m,
    decreases m,
{
    if m < 10 {
        lemma_digit_char_value(m as int);
        assert(nat_text(m).drop_last() =~= Seq::<char>::empty());
        assert(digits_value(nat_text(m)) == digits_value(Seq::<char>::empty()) * 10 + digit_value(
            nat_text(m).last(),
        ));
    } else {
        lemma_nat_text_digits(m / 10);
        lemma_digit_char_value((m % 10) as int);
        let s = nat_text(m);
        assert(s.drop_last() =~= nat_text(m / 10));
        assert(s.last() == crate::text::digit_char((m % 10) as int));
        assert(digits_value(s) == digits_value(nat_text(m / 10)) * 10 + digit_value(s.last()));
        assert((m / 10) * 10 + m % 10 == m);
        assert forall|i: int| 0 <= i < s.len() implies is_digit(#[trigger] s[i]) by {
            if i < s.len() - 1 {
                assert(s[i] == nat_text(m / 10)[i]);
            }
        }
    }
}

proof fn lemma_no_dot(b: Seq<char>, i: int)
    requires
        all_digits(b),
        0 <= i,
    ensures
        dot_from(b, i) is None,
    decreases b.len() - i,
{
    if i < b.len() {
        assert(is_digit(b[i]));
        lemma_no_dot(b, i + 1);
    }
}

proof fn lemma_zero_pad(k: nat)
    ensures
        digits_value(pad_to(Seq::<char>::empty(), k)) == 0,
    decreases k,
{
    if k > 0 {
        assert(pad_to(Seq::<char>::empty(), k).drop_last() =~= pad_to(Seq::<char>::empty(), (k - 1) as nat));
        lemma_zero_pad((k - 1) as nat);
    }
}

proof fn lemma_number_end_at(t: Seq<char>, i: int, l: int)
    requires
        0 <= i <= l < t.len(),
        forall|j: int| i <= j < l ==> number_char(#[trigger] t[j]),
        !number_char(t[l]),
    ensures
        number_end(t, i) == Some(l),
    decreases l - i,
{
    if i < l {
        lemma_number_end_at(t, i + 1, l);
    }
}

/// The unit suffix that canonical text uses for exponent `k`.
pub open spec fn unit_suffix(k: nat) -> Seq<char> {
    if k == 9 {
        "s"@
    } else if k == 6 {
        "ms"@
    } else if k == 3 {
        "us"@
    } else {
        "ns"@
    }
}

proof fn lemma_trim_fixed(t: Seq<char>)
    requires
        t.len() > 0,
        !crate::text::is_ws(t[0]),
        !crate::text::is_ws(t.last()),
    ensures
        trim(t) == t,
{
    assert(trim_start(t) == t);
    assert(trim_end(t) == t);
}

/// What the parser reads in the text of an integer `q`.
proof fn lemma_int_text_number(q: int, k: nat)
    ensures
        int_text(q).len() > 0,
        !crate::text::is_ws(int_text(q)[0]),
        forall|j: int| 0 <= j < int_text(q).len() ==> number_char(#[trigger] int_text(q)[j]),
        decimal_ok(int_text(q)),
        is_negative(int_text(q)) == (q < 0),
        magnitude(int_text(q), k) == (if q < 0 {
            -q
        } else {
            q
        }) * pow10(k),
        !rounds_up(int_text(q), k),
{
    let m: nat = if q < 0 {
        (-q) as nat
    } else {
        q as nat
    };
    lemma_nat_text_digits(m);
    let digits = nat_text(m);
    let num = int_text(q);
    assert forall|j: int| 0 <= j < num.len() implies number_char(#[trigger] num[j]) by {
        if q < 0 {
            if j > 0 {
                assert(num[j] == digits[j - 1]);
                assert(is_digit(digits[j - 1]));
            }
        } else {
            assert(is_digit(digits[j]));
        }
    }
    assert(!crate::text::is_ws(num[0])) by {
        if q >= 0 {
            assert(is_digit(digits[0]));
        }
    }
    let b = unsigned_part(num);
    assert(b =~= digits) by {
        if q < 0 {
            assert(num.drop_first() =~= digits);
        } else {
            assert(is_digit(digits[0]));
        }
    }
    lemma_no_dot(digits, 0);
    assert(int_digits(b) == digits);
    assert(frac_digits(b) =~= Seq::<char>::empty());
    lemma_zero_pad(k);
    if q >= 0 {
        assert(is_digit(num[0]));
    }
}

proof fn lemma_unit_suffix(k: nat)
    requires
        k == 0 || k == 3 || k == 6 || k == 9,
    ensures
        unit_exponent(unit_suffix(k)) == Some(k),
        unit_suffix(k).len() > 0,
        !number_char(unit_suffix(k)[0]),
        !crate::text::is_ws(unit_suffix(k)[0]),
        unit_suffix(k).last() == 's',
        trim(unit_suffix(k)) == unit_suffix(k),
{
    reveal_strlit("s");
    reveal_strlit("ms");
    reveal_strlit("us");
    reveal_strlit("ns");
    reveal_strlit("µs");
    assert("s"@ =~= seq!['s']);
    assert("ms"@ =~= seq!['m', 's']);
    assert("us"@ =~= seq!['u', 's']);
    assert("ns"@ =~= seq!['n', 's']);
    assert("µs"@ =~= seq!['µ', 's']);
    lemma_trim_fixed(unit_suffix(k));
}

proof fn lemma_parse_scaled(q: int, k: nat)
    requires
        k == 0 || k == 3 || k == 6 || k == 9,
        -(nanos_bound() as int) < q * pow10(k) <= i64::MAX,
    ensures
        duration_outcome(int_text(q) + unit_suffix(k)) == Ok::<int, DurationParseErrorView>(
            q * pow10(k),
        ),
{
    let num = int_text(q);
    let u = unit_suffix(k);
    let t = num + u;
    lemma_int_text_number(q, k);
    lemma_unit_suffix(k);
    assert(t[0] == num[0]);
    assert(t.last() == u.last());
    lemma_trim_fixed(t);
    assert forall|j: int| 0 <= j < num.len() implies number_char(#[trigger] t[j]) by {
        assert(t[j] == num[j]);
    }
    assert(t[num.len() as int] == u[0]);
    lemma_number_end_at(t, 0, num.len() as int);
    assert(t.take(num.len() as int) =~= num);
    assert(t.skip(num.len() as int) =~= u);
    if q < 0 {
        assert((-q) * pow10(k) == -(q * pow10(k))) by (nonlinear_arith);
    }
}

/// Canonical text parses back to the same duration, for every value but
/// `i64::MIN` (whose magnitude, `2^63`, is outside the accepted range).
pub proof fn lemma_canonical_round_trip(n: int)
    requires
        i64::MIN < n <= i64::MAX,
    ensures
        duration_outcome(canonical_text(n)) == Ok::<int, DurationParseErrorView>(n),
{
    reveal_strlit("0s");
    reveal_strlit("s");
    reveal_strlit("ms");
    reveal_strlit("us");
    reveal_strlit("ns");
    reveal_with_fuel(pow10, 10);
    assert(pow10(9) == 1_000_000_000);
    assert(pow10(6) == 1_000_000);
    assert(pow10(3) == 1_000);
    assert(pow10(0) == 1);
    if n == 0 {
        assert(int_text(0) =~= seq!['0']);
        assert(canonical_text(n) =~= int_text(0) + unit_suffix(9));
        lemma_parse_scaled(0, 9);
    } else if n % 1_000_000_000 == 0 {
        let q = n / 1_000_000_000;
        assert(q * 1_000_000_000 == n);
        lemma_parse_scaled(q, 9);
    } else if n % 1_000_000 == 0 {
        let q = n / 1_000_000;
        assert(q * 1_000_000 == n);
        lemma_parse_scaled(q, 6);
    } else if n % 1_000 == 0 {
        let q = n / 1_000;
        assert(q * 1_000 == n);
        lemma_parse_scaled(q, 3);
    } else {
        lemma_parse_scaled(n, 0);
    }
}


/// Whitespace never continues a number.
proof fn lemma_ws_not_number(c: char)
    requires
        crate::text::is_ws(c),
    ensures
        !number_char(c),
{
}

/// Leading whitespace is what `trim_start` removes.
proof fn lemma_trim_start_ws_prefix(w: Seq<char>, x: Seq<char>)
    requires
        forall|i: int| 0 <= i < w.len() ==> crate::text::is_ws(#[trigger] w[i]),
    ensures
        trim_start(w + x) == trim_start(x),
    decreases w.len(),
{
    if w.len() == 0 {
        assert(w + x =~= x);
    } else {
        assert((w + x)[0] == w[0]);
        assert((w + x).drop_first() =~= w.drop_first() + x);
        lemma_trim_start_ws_prefix(w.drop_first(), x);
    }
}

/// `trim_end` of a text that starts with a non-space keeps that first
/// character and only shortens the text.
proof fn lemma_trim_end_keeps_head(b: Seq<char>)
    requires
        b.len() > 0,
        !crate::text::is_ws(b[0]),
    ensures
        trim_end(b).len() > 0,
        trim_end(b)[0] == b[0],
    decreases b.len(),
{
    if crate::text::is_ws(b.last()) {
        assert(b.len() > 1);
        lemma_trim_end_keeps_head(b.drop_last());
    }
}

/// Trailing whitespace lies within a suffix that holds a non-space.
proof fn lemma_trim_end_append(a: Seq<char>, b: Seq<char>)
    requires
        b.len() > 0,
        !crate::text::is_ws(b[0]),
    ensures
        trim_end(a + b) == a + trim_end(b),
    decreases b.len(),
{
    if crate::text::is_ws(b.last()) {
        assert(b.len() > 1);
        assert((a + b).last() == b.last());
        assert((a + b).drop_last() =~= a + b.drop_last());
        lemma_trim_end_append(a, b.drop_last());
    } else {
        assert((a + b).last() == b.last());
    }
}

/// Whitespace between the number and the unit does not change what a
/// duration text means: for a number `n`, whitespace `w` and a unit `u`,
/// `n w u` parses exactly when `n u` does, to the same nanoseconds, and an
/// unknown unit is reported as the same unit. (The other errors quote the
/// whole input, which differs by `w`, so they agree in kind.)
pub proof fn lemma_space_before_unit(n: Seq<char>, w: Seq<char>, u: Seq<char>)
    requires
        n.len() > 0,
        forall|i: int| 0 <= i < n.len() ==> number_char(#[trigger] n[i]),
        forall|i: int| 0 <= i < w.len() ==> crate::text::is_ws(#[trigger] w[i]),
        u.len() > 0,
        !crate::text::is_ws(u[0]),
        !number_char(u[0]),
    ensures
        duration_outcome(n + w + u) is Ok <==> duration_outcome(n + u) is Ok,
        duration_outcome(n + u) is Ok ==> duration_outcome(n + w + u) == duration_outcome(n + u),
        (duration_outcome(n + u) matches Err(DurationParseErrorView::UnknownUnit { .. }))
            ==> duration_outcome(n + w + u) == duration_outcome(n + u),
        (duration_outcome(n + w + u) matches Err(DurationParseErrorView::Malformed(_)))
            <==> (duration_outcome(n + u) matches Err(DurationParseErrorView::Malformed(_))),
        (duration_outcome(n + w + u) matches Err(DurationParseErrorView::OutOfRange(_)))
            <==> (duration_outcome(n + u) matches Err(DurationParseErrorView::OutOfRange(_))),
{
    let a = n + w + u;
    let b = n + u;
    let l = n.len() as int;
    // Neither text starts with whitespace.
    assert(a[0] == n[0]);
    assert(b[0] == n[0]);
    assert(!crate::text::is_ws(n[0]));
    assert(trim_start(a) == a);
    assert(trim_start(b) == b);
    // Both keep their head through `trim_end`.
    let v = trim_end(u);
    lemma_trim_end_keeps_head(u);
    lemma_trim_end_append(n + w, u);
    lemma_trim_end_append(n, u);
    let ta = (n + w) + v;
    let tb = n + v;
    assert(trim(a) == ta);
    assert(trim(b) == tb);
    // The number ends where `n` does.
    assert forall|j: int| 0 <= j < l implies number_char(#[trigger] ta[j]) by {
        assert(ta[j] == n[j]);
    }
    assert forall|j: int| 0 <= j < l implies number_char(#[trigger] tb[j]) by {
        assert(tb[j] == n[j]);
    }
    if w.len() > 0 {
        assert(ta[l] == w[0]);
        lemma_ws_not_number(w[0]);
    } else {
        assert(ta[l] == v[0]);
    }
    assert(tb[l] == v[0]);
    lemma_number_end_at(ta, 0, l);
    lemma_number_end_at(tb, 0, l);
    assert(ta.take(l) =~= n);
    assert(tb.take(l) =~= n);
    // The unit is the same text.
    assert(ta.skip(l) =~= w + v);
    assert(tb.skip(l) =~= v);
    lemma_trim_start_ws_prefix(w, v);
    assert(trim_start(v) == v);
    assert(trim(ta.skip(l)) == trim(tb.skip(l)));
}

} // verus!
