//! Small manifest declarations: argument types, QoS overlays, drop counts.

use vstd::prelude::*;
use crate::text::{
    push_str, push_nat, nat_text, trim, trim_bounds, from_chars, to_chars, owned,
};

verus! {

// ── Arguments ──

/// Argument declaration with an optional type constraint.
#[derive(Debug, Clone)]
pub enum ArgDecl {
    /// Free string: no constraint (the default).
    String,
    /// Boolean: only `true` or `false`.
    Bool,
    /// One of the listed values.
    Choices(Vec<String>),
}

/// The values an argument may take; `None` when any string will do.
pub open spec fn valid_values_of(d: ArgDecl) -> Option<Seq<Seq<char>>> {
    match d {
        ArgDecl::String => None,
        ArgDecl::Bool => Some(seq!["true"@, "false"@]),
        ArgDecl::Choices(c) => Some(Seq::new(c@.len(), |i: int| c@[i]@)),
    }
}

impl ArgDecl {
    /// Valid values for this argument; `None` means unconstrained.
    pub fn valid_values(&self) -> (r: Option<Vec<&str>>)
        ensures
            match valid_values_of(*self) {
                None => r is None,
                Some(vs) => r matches Some(v) && v@.len() == vs.len() && forall|i: int|
                    0 <= i < vs.len() ==> (#[trigger] v@[i])@ == vs[i],
            },
    {
        match self {
            ArgDecl::String => None,
            ArgDecl::Bool => {
                let mut v: Vec<&str> = Vec::new();
                v.push("true");
                v.push("false");
                Some(v)
            },
            ArgDecl::Choices(choices) => {
                let mut v: Vec<&str> = Vec::new();
                let mut i: usize = 0;
                while i < choices.len()
                    invariant
                        i <= choices@.len(),
                        v@.len() == i,
                        forall|j: int| 0 <= j < i ==> (#[trigger] v@[j])@ == choices@[j]@,
                    decreases choices@.len() - i,
                {
                    v.push(choices[i].as_str());
                    i += 1;
                }
                Some(v)
            },
        }
    }
}

// ── QoS ──

/// QoS declaration; every field optional.
#[derive(Debug, Clone, PartialEq, Eq)]
pub struct QosDecl {
    pub reliability: Option<String>,
    pub durability: Option<String>,
    pub depth: Option<u32>,
    pub history: Option<String>,
    pub lifespan_ms: Option<u64>,
    pub liveliness: Option<String>,
    /// Longest gap a subscriber accepts between messages.
    pub deadline: Option<crate::duration::Duration>,
    /// Liveliness lease duration.
    pub lease_duration: Option<crate::duration::Duration>,
}

/// The endpoint's value if it sets one, else the topic's.
pub open spec fn overlay<T>(endpoint: Option<T>, topic: Option<T>) -> Option<T> {
    if endpoint is Some {
        endpoint
    } else {
        topic
    }
}

/// A field of an optional declaration.
pub open spec fn field_or_none<T>(q: Option<QosDecl>, f: spec_fn(QosDecl) -> Option<T>) -> Option<T> {
    match q {
        Some(d) => f(d),
        None => None,
    }
}

fn pick_string(endpoint: Option<&String>, topic: Option<&String>) -> (r: Option<String>)
    ensures
        r == overlay(
            match endpoint {
                Some(s) => Some(*s),
                None => None,
            },
            match topic {
                Some(s) => Some(*s),
                None => None,
            },
        ),
{
    match endpoint {
        Some(s) => Some(s.clone()),
        None => match topic {
            Some(s) => Some(s.clone()),
            None => None,
        },
    }
}

impl QosDecl {
    /// The effective QoS of an endpoint: each field is the endpoint's own
    /// setting when it has one, else the topic's.
    pub fn effective(topic: Option<&QosDecl>, endpoint: Option<&QosDecl>) -> (r: QosDecl)
        ensures
            ({
                let t = match topic {
                    Some(q) => Some(*q),
                    None => None::<QosDecl>,
                };
                let e = match endpoint {
                    Some(q) => Some(*q),
                    None => None::<QosDecl>,
                };
                &&& r.reliability == overlay(
                    field_or_none(e, |q: QosDecl| q.reliability),
                    field_or_none(t, |q: QosDecl| q.reliability),
                )
                &&& r.durability == overlay(
                    field_or_none(e, |q: QosDecl| q.durability),
                    field_or_none(t, |q: QosDecl| q.durability),
                )
                &&& r.depth == overlay(
                    field_or_none(e, |q: QosDecl| q.depth),
                    field_or_none(t, |q: QosDecl| q.depth),
                )
                &&& r.history == overlay(
                    field_or_none(e, |q: QosDecl| q.history),
                    field_or_none(t, |q: QosDecl| q.history),
                )
                &&& r.lifespan_ms == overlay(
                    field_or_none(e, |q: QosDecl| q.lifespan_ms),
                    field_or_none(t, |q: QosDecl| q.lifespan_ms),
                )
                &&& r.liveliness == overlay(
                    field_or_none(e, |q: QosDecl| q.liveliness),
                    field_or_none(t, |q: QosDecl| q.liveliness),
                )
                &&& r.deadline == overlay(
                    field_or_none(e, |q: QosDecl| q.deadline),
                    field_or_none(t, |q: QosDecl| q.deadline),
                )
                &&& r.lease_duration == overlay(
                    field_or_none(e, |q: QosDecl| q.lease_duration),
                    field_or_none(t, |q: QosDecl| q.lease_duration),
                )
            }),
    {
        let reliability = pick_string(
            match endpoint {
                Some(q) => q.reliability.as_ref(),
                None => None,
            },
            match topic {
                Some(q) => q.reliability.as_ref(),
                None => None,
            },
        );
        let durability = pick_string(
            match endpoint {
                Some(q) => q.durability.as_ref(),
                None => None,
            },
            match topic {
                Some(q) => q.durability.as_ref(),
                None => None,
            },
        );
        let history = pick_string(
            match endpoint {
                Some(q) => q.history.as_ref(),
                None => None,
            },
            match topic {
                Some(q) => q.history.as_ref(),
                None => None,
            },
        );
        let liveliness = pick_string(
            match endpoint {
                Some(q) => q.liveliness.as_ref(),
                None => None,
            },
            match topic {
                Some(q) => q.liveliness.as_ref(),
                None => None,
            },
        );
        let depth = match endpoint {
            Some(q) if q.depth.is_some() => q.depth,
            _ => match topic {
                Some(q) => q.depth,
                None => None,
            },
        };
        let lifespan_ms = match endpoint {
            Some(q) if q.lifespan_ms.is_some() => q.lifespan_ms,
            _ => match topic {
                Some(q) => q.lifespan_ms,
                None => None,
            },
        };
        let deadline = match endpoint {
            Some(q) if q.deadline.is_some() => q.deadline,
            _ => match topic {
                Some(q) => q.deadline,
                None => None,
            },
        };
        let lease_duration = match endpoint {
            Some(q) if q.lease_duration.is_some() => q.lease_duration,
            _ => match topic {
                Some(q) => q.lease_duration,
                None => None,
            },
        };
        QosDecl { reliability, durability, depth, history, lifespan_ms, liveliness, deadline, lease_duration }
    }
}

// ── Drop counts ──

/// Drop count: at most `n` drops per `w` messages.
#[derive(Debug, Clone, Copy, PartialEq, Eq, Structural)]
pub struct DropCount {
    pub n: u32,
    pub w: u32,
}

/// `N / W`.
pub open spec fn drop_count_text(n: nat, w: nat) -> Seq<char> {
    nat_text(n) + " / "@ + nat_text(w)
}

pub open spec fn is_digit(c: char) -> bool {
    '0' <= c <= '9'
}

/// The value of a string of decimal digits.
pub open spec fn digits_value(x: Seq<char>) -> nat
    decreases x.len(),
{
    if x.len() == 0 {
        0
    } else {
        digits_value(x.drop_last()) * 10 + (((x.last() as int) - ('0' as int)) as nat)
    }
}

/// What `u32`'s `from_str` accepts: an optional `+`, then one or more digits,
/// with a value below `2^32`.
pub open spec fn u32_text_value(s: Seq<char>) -> Option<nat> {
    let d = unsigned_digits(s);
    if d.len() > 0 && all_digits(d) && digits_value(d) < 0x1_0000_0000 {
        Some(digits_value(d))
    } else {
        None
    }
}

/// The text without a leading `+`.
pub open spec fn unsigned_digits(s: Seq<char>) -> Seq<char> {
    if s.len() > 0 && s[0] == '+' {
        s.drop_first()
    } else {
        s
    }
}

pub open spec fn all_digits(d: Seq<char>) -> bool {
    forall|i: int| 0 <= i < d.len() ==> is_digit(#[trigger] d[i])
}

/// The position of the only `/` in `s`, when there is exactly one.
pub open spec fn single_slash(s: Seq<char>) -> Option<int> {
    if exists|i: int| 0 <= i < s.len() && s[i] == '/' && forall|j: int|
        0 <= j < s.len() && j != i ==> #[trigger] s[j] != '/' {
        Some(
            choose|i: int|
                0 <= i < s.len() && s[i] == '/' && forall|j: int|
                    0 <= j < s.len() && j != i ==> #[trigger] s[j] != '/',
        )
    } else {
        None
    }
}

/// What parsing `N / W` gives: the pair, or the message.
pub open spec fn drop_count_outcome(s: Seq<char>) -> Result<(nat, nat), Seq<char>> {
    match single_slash(s) {
        None => Err("expected 'N / W' format, got '"@ + s + "'"@),
        Some(p) => {
            let a = trim(s.take(p));
            let b = trim(s.skip(p + 1));
            match u32_text_value(a) {
                None => Err("invalid drop count: '"@ + a + "'"@),
                Some(n) => match u32_text_value(b) {
                    None => Err("invalid window size: '"@ + b + "'"@),
                    Some(w) => if w == 0 {
                        Err("window size must be > 0"@)
                    } else {
                        Ok((n, w))
                    },
                },
            }
        },
    }
}

proof fn lemma_digits_step(x: Seq<char>, i: int)
    requires
        0 <= i < x.len(),
    ensures
        digits_value(x.take(i + 1)) == digits_value(x.take(i)) * 10 + (((x[i] as int) - ('0' as int)) as nat),
{
    assert(x.take(i + 1).drop_last() =~= x.take(i));
}

proof fn lemma_digits_grow(x: Seq<char>, i: int, j: int)
    requires
        0 <= i <= j <= x.len(),
    ensures
        digits_value(x.take(i)) <= digits_value(x.take(j)),
    decreases j - i,
{
    if i < j {
        lemma_digits_grow(x, i, j - 1);
        lemma_digits_step(x, j - 1);
    }
}

/// Parse `v[lo..hi]` as `u32` does.
fn parse_u32(v: &[char], lo: usize, hi: usize) -> (r: Option<u32>)
    requires
        lo <= hi <= v@.len(),
    ensures
        match u32_text_value(v@.subrange(lo as int, hi as int)) {
            Some(x) => r == Some(x as u32),
            None => r is None,
        },
{
    let ghost s = v@.subrange(lo as int, hi as int);
    let start = if lo < hi && v[lo] == '+' {
        lo + 1
    } else {
        lo
    };
    let ghost d = v@.subrange(start as int, hi as int);
    assert(d =~= unsigned_digits(s));
    if start == hi {
        return None;
    }
    let mut acc: u64 = 0;
    let mut i = start;
    assert(d.take(0) =~= Seq::<char>::empty());
    while i < hi
        invariant
            start <= i <= hi <= v@.len(),
            d == v@.subrange(start as int, hi as int),
            lo <= start,
            s == v@.subrange(lo as int, hi as int),
            d == unsigned_digits(s),
            d.len() > 0,
            forall|j: int| 0 <= j < i - start ==> is_digit(#[trigger] d[j]),
            acc == digits_value(d.take(i - start)),
            acc < 0x1_0000_0000,
        decreases hi - i,
    {
        let c = v[i];
        assert(d[i - start] == c);
        if !('0' <= c && c <= '9') {
            assert(!is_digit(d[i - start]));
            assert(!all_digits(d));
            return None;
        }
        proof {
            lemma_digits_step(d, i - start);
        }
        acc = acc * 10 + (c as u32 - '0' as u32) as u64;
        i += 1;
        if acc >= 0x1_0000_0000 {
            proof {
                lemma_digits_grow(d, i - start, d.len() as int);
                assert(d.take(d.len() as int) =~= d);
                assert(digits_value(d) >= 0x1_0000_0000);
            }
            return None;
        }
    }
    assert(d.take(hi - start) =~= d);
    Some(acc as u32)
}

impl DropCount {
    /// `N / W`, as the count displays.
    pub fn to_text(&self) -> (r: String)
        ensures
            r@ == drop_count_text(self.n as nat, self.w as nat),
    {
        let mut s = String::new();
        push_nat(&mut s, self.n as u64);
        push_str(&mut s, " / ");
        push_nat(&mut s, self.w as u64);
        s
    }

    /// Parse `N / W`.
    pub fn parse_text(s: &str) -> (r: Result<DropCount, String>)
        ensures
            match drop_count_outcome(s@) {
                Ok((n, w)) => r == Ok::<DropCount, String>(DropCount { n: n as u32, w: w as u32 }),
                Err(m) => r matches Err(e) && e@ == m,
            },
    {
        let v = to_chars(s);
        let len = v.len();
        let mut count: usize = 0;
        let mut p: usize = 0;
        let mut i: usize = 0;
        while i < len
            invariant
                i <= len == v@.len(),
                v@ == s@,
                count <= i,
                count == 0 ==> forall|j: int| 0 <= j < i ==> v@[j] != '/',
                count >= 1 ==> p < i && v@[p as int] == '/',
                count == 1 ==> forall|j: int| 0 <= j < i && j != p ==> v@[j] != '/',
                count >= 2 ==> exists|a: int, b: int|
                    0 <= a < b < i && v@[a] == '/' && v@[b] == '/',
            decreases len - i,
        {
            if v[i] == '/' {
                if count == 0 {
                    p = i;
                }
                if count == 1 {
                    assert(v@[p as int] == '/' && v@[i as int] == '/');
                }
                count = if count < 2 {
                    count + 1
                } else {
                    2
                };
            }
            i += 1;
        }
        proof {
            if count == 1 {
                assert(single_slash(s@) == Some(p as int)) by {
                    assert(exists|i: int| 0 <= i < s@.len() && s@[i] == '/' && forall|j: int|
                        0 <= j < s@.len() && j != i ==> #[trigger] s@[j] != '/') by {
                        assert(forall|j: int|
                            0 <= j < s@.len() && j != p ==> #[trigger] s@[j] != '/');
                    }
                    let c = choose|i: int|
                        0 <= i < s@.len() && s@[i] == '/' && forall|j: int|
                            0 <= j < s@.len() && j != i ==> #[trigger] s@[j] != '/';
                    if c != p {
                        assert(s@[p as int] != '/');
                    }
                }
            } else {
                assert(single_slash(s@) is None) by {
                    if exists|i: int| 0 <= i < s@.len() && s@[i] == '/' && forall|j: int|
                        0 <= j < s@.len() && j != i ==> #[trigger] s@[j] != '/' {
                        let c = choose|i: int|
                            0 <= i < s@.len() && s@[i] == '/' && forall|j: int|
                                0 <= j < s@.len() && j != i ==> #[trigger] s@[j] != '/';
                        if count == 0 {
                            assert(v@[c] != '/');
                        } else {
                            let (a, b) = choose|a: int, b: int|
                                0 <= a < b < len && v@[a] == '/' && v@[b] == '/';
                            if a != c {
                                assert(s@[a] != '/');
                            } else {
                                assert(s@[b] != '/');
                            }
                        }
                    }
                }
            }
        }
        if count != 1 {
            let mut m = String::new();
            push_str(&mut m, "expected 'N / W' format, got '");
            push_str(&mut m, s);
            push_str(&mut m, "'");
            return Err(m);
        }
        let head = trimmed_range(v.as_slice(), 0, p);
        let tail = trimmed_range(v.as_slice(), p + 1, len);
        proof {
            assert(s@.take(p as int) =~= v@.subrange(0, p as int));
            assert(s@.skip(p + 1) =~= v@.subrange(p + 1, len as int));
        }
        let n = match parse_u32(v.as_slice(), head.0, head.1) {
            Some(n) => n,
            None => {
                let mut m = String::new();
                push_str(&mut m, "invalid drop count: '");
                let t = range_string(v.as_slice(), head.0, head.1);
                push_str(&mut m, t.as_str());
                push_str(&mut m, "'");
                return Err(m);
            },
        };
        let w = match parse_u32(v.as_slice(), tail.0, tail.1) {
            Some(w) => w,
            None => {
                let mut m = String::new();
                push_str(&mut m, "invalid window size: '");
                let t = range_string(v.as_slice(), tail.0, tail.1);
                push_str(&mut m, t.as_str());
                push_str(&mut m, "'");
                return Err(m);
            },
        };
        if w == 0 {
            return Err(owned("window size must be > 0"));
        }
        Ok(DropCount { n, w })
    }
}

impl std::str::FromStr for DropCount {
    type Err = String;

    fn from_str(s: &str) -> (r: Result<Self, Self::Err>)
        ensures
            match drop_count_outcome(s@) {
                Ok((n, w)) => r == Ok::<DropCount, String>(DropCount { n: n as u32, w: w as u32 }),
                Err(m) => r matches Err(e) && e@ == m,
            },
    {
        DropCount::parse_text(s)
    }
}

/// The bounds of `v[lo..hi]` with surrounding whitespace removed.
pub(crate) fn trimmed_range(v: &[char], lo: usize, hi: usize) -> (r: (usize, usize))
    requires
        lo <= hi <= v@.len(),
    ensures
        lo <= r.0 <= r.1 <= hi,
        trim(v@.subrange(lo as int, hi as int)) == v@.subrange(r.0 as int, r.1 as int),
{
    let a = crate::text::skip_ws_in(v, lo, hi);
    let b = crate::text::skip_ws_back(v, a, hi);
    (a, b)
}

/// A `String` holding `v[lo..hi]`.
fn range_string(v: &[char], lo: usize, hi: usize) -> (s: String)
    requires
        lo <= hi <= v@.len(),
    ensures
        s@ == v@.subrange(lo as int, hi as int),
{
    let mut s = String::new();
    let mut i = lo;
    while i < hi
        invariant
            lo <= i <= hi <= v@.len(),
            s@ == v@.subrange(lo as int, i as int),
        decreases hi - i,
    {
        crate::text::push_char(&mut s, v[i]);
        i += 1;
        assert(s@ =~= v@.subrange(lo as int, i as int));
    }
    s
}

} // verus!

verus! {

// ── Display and parse agree ──

proof fn lemma_digit_char(d: int)
    requires
        0 <= d < 10,
    ensures
        is_digit(crate::text::digit_char(d)),
        (crate::text::digit_char(d) as int) - ('0' as int) == d,
{
}

proof fn lemma_count_text(m: nat)
    ensures
        nat_text(m).len() > 0,
        all_digits(nat_text(m)),
        digits_value(nat_text(m)) == m,
    decreases m,
{
    if m < 10 {
        lemma_digit_char(m as int);
        assert(nat_text(m).drop_last() =~= Seq::<char>::empty());
        assert(digits_value(nat_text(m)) == digits_value(Seq::<char>::empty()) * 10 + (((nat_text(
            m,
        ).last() as int) - ('0' as int)) as nat));
    } else {
        lemma_count_text(m / 10);
        lemma_digit_char((m % 10) as int);
        let s = nat_text(m);
        assert(s.drop_last() =~= nat_text(m / 10));
        assert(s.last() == crate::text::digit_char((m % 10) as int));
        assert(digits_value(s) == digits_value(nat_text(m / 10)) * 10 + (((s.last() as int) - (
        '0' as int)) as nat));
        assert((m / 10) * 10 + m % 10 == m);
        assert forall|i: int| 0 <= i < s.len() implies is_digit(#[trigger] s[i]) by {
            if i < s.len() - 1 {
                assert(s[i] == nat_text(m / 10)[i]);
            }
        }
    }
}

proof fn lemma_digits_fixed(x: Seq<char>)
    requires
        x.len() > 0,
        all_digits(x),
    ensures
        crate::text::trim_start(x) == x,
        crate::text::trim_end(x) == x,
        trim(x) == x,
        forall|i: int| 0 <= i < x.len() ==> #[trigger] x[i] != '/',
        x[0] != '+',
{
    assert(is_digit(x[0]));
    assert(is_digit(x.last()));
    assert forall|i: int| 0 <= i < x.len() implies #[trigger] x[i] != '/' by {
        assert(is_digit(x[i]));
    }
}

proof fn lemma_count_value(m: nat)
    requires
        m < 0x1_0000_0000,
    ensures
        u32_text_value(nat_text(m)) == Some(m),
{
    lemma_count_text(m);
    lemma_digits_fixed(nat_text(m));
    assert(unsigned_digits(nat_text(m)) == nat_text(m));
}

proof fn lemma_one_slash(a: Seq<char>, b: Seq<char>)
    requires
        a.len() > 0,
        b.len() > 0,
        all_digits(a),
        all_digits(b),
    ensures
        single_slash(a + seq![' ', '/', ' '] + b) == Some(a.len() as int + 1),
{
    let s = a + seq![' ', '/', ' '] + b;
    let p: int = a.len() as int + 1;
    lemma_digits_fixed(a);
    lemma_digits_fixed(b);
    assert(s[p] == '/');
    assert forall|j: int| 0 <= j < s.len() && j != p implies #[trigger] s[j] != '/' by {
        if j < a.len() {
            assert(s[j] == a[j]);
        } else if j > p + 1 {
            assert(s[j] == b[j - p - 2]);
        }
    }
    let q = choose|i: int|
        0 <= i < s.len() && s[i] == '/' && forall|j: int|
            0 <= j < s.len() && j != i ==> #[trigger] s[j] != '/';
    assert(q == p) by {
        if q != p {
            assert(s[p] != '/');
        }
    }
}

proof fn lemma_trimmed_sides(a: Seq<char>, b: Seq<char>)
    requires
        a.len() > 0,
        b.len() > 0,
        all_digits(a),
        all_digits(b),
    ensures
        trim((a + seq![' ', '/', ' '] + b).take(a.len() as int + 1)) == a,
        trim((a + seq![' ', '/', ' '] + b).skip(a.len() as int + 2)) == b,
{
    let s = a + seq![' ', '/', ' '] + b;
    lemma_digits_fixed(a);
    lemma_digits_fixed(b);
    let head = s.take(a.len() as int + 1);
    let tail = s.skip(a.len() as int + 2);
    assert(head =~= a.push(' '));
    assert(tail =~= seq![' '] + b);
    assert(crate::text::trim_start(head) == head) by {
        assert(head[0] == a[0]);
        assert(is_digit(a[0]));
    }
    assert(crate::text::trim_end(head) == crate::text::trim_end(a)) by {
        assert(head.drop_last() =~= a);
    }
    assert(crate::text::trim_start(tail) == crate::text::trim_start(b)) by {
        assert(tail.drop_first() =~= b);
    }
}

/// A drop count reads back as itself: parsing the text `N / W` it displays
/// gives `N` and `W` again, for every count with a nonzero window.
pub proof fn lemma_drop_count_round_trip(d: DropCount)
    requires
        d.w > 0,
    ensures
        drop_count_outcome(drop_count_text(d.n as nat, d.w as nat)) == Ok::<(nat, nat), Seq<char>>(
            (d.n as nat, d.w as nat),
        ),
{
    let a = nat_text(d.n as nat);
    let b = nat_text(d.w as nat);
    lemma_count_text(d.n as nat);
    lemma_count_text(d.w as nat);
    let s = drop_count_text(d.n as nat, d.w as nat);
    assert(s =~= a + seq![' ', '/', ' '] + b) by {
        reveal_strlit(" / ");
    }
    lemma_one_slash(a, b);
    lemma_trimmed_sides(a, b);
    lemma_count_value(d.n as nat);
    lemma_count_value(d.w as nat);
}

} // verus!
