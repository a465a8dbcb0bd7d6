//! Condition evaluator for `if:` and `unless:` fields.
//!
//! Two forms are accepted:
//! - **Boolean**: a bare string; exactly `"true"` means true.
//! - **Expression**: `value == value`, `value != value`, `and`, `or`,
//!   parentheses. All comparisons are string equality.
//!
//! Grammar (whitespace may precede every token):
//!
//! ```text
//! expr     := or_expr
//! or_expr  := and_expr ('or' and_expr)*
//! and_expr := atom ('and' atom)*
//! atom     := '(' expr ')' | compare
//! compare  := value (('==' | '!=') value)?
//! value    := quoted_string | bare_word
//! ```
//!
//! The parser works on positions in one character sequence; every spec
//! function below takes the whole input and a position in it.

use vstd::prelude::*;
use crate::text::{is_ws, is_ws_exec, to_chars, trim, trim_start, trim_end, trimmed_chars, chars_eq_str};

verus! {

// ── Character classes ──

/// Whether `c` is alphabetic or numeric in Unicode's sense
/// (`char::is_alphanumeric`).
pub uninterp spec fn unicode_alphanumeric(c: char) -> bool;

/// An ASCII letter or digit.
pub open spec fn ascii_alphanumeric(c: char) -> bool {
    ('0' <= c <= '9') || ('a' <= c <= 'z') || ('A' <= c <= 'Z')
}

/// `char::is_alphanumeric`. On ASCII it holds exactly for letters and
/// digits; beyond ASCII it follows Unicode's Alphabetic and Numeric
/// properties, which are named here rather than tabulated.
#[verifier::external_body]
fn is_alphanumeric(c: char) -> (r: bool)
    ensures
        r == unicode_alphanumeric(c),
        r == alphanumeric(c),
{
    c.is_alphanumeric()
}

/// Letters and digits: the ASCII ones below 128, Unicode's beyond.
pub open spec fn alphanumeric(c: char) -> bool {
    if (c as u32) < 128 {
        ascii_alphanumeric(c)
    } else {
        unicode_alphanumeric(c)
    }
}

/// A character that continues a keyword into a longer word.
pub open spec fn word_char(c: char) -> bool {
    alphanumeric(c) || c == '_'
}

/// A character of a bare (unquoted) value.
pub open spec fn value_char(c: char) -> bool {
    alphanumeric(c) || c == '_' || c == '-' || c == '.' || c == '/'
}

// ── Positions ──

/// The first position at or after `i` that is not whitespace.
pub open spec fn skip(s: Seq<char>, i: int) -> int
    decreases s.len() - i,
{
    if 0 <= i < s.len() && is_ws(s[i]) {
        skip(s, i + 1)
    } else {
        i
    }
}

/// The first position at or after `i` holding `q`, if any.
pub open spec fn find_from(s: Seq<char>, i: int, q: char) -> Option<int>
    decreases s.len() - i,
{
    if i < 0 || i >= s.len() {
        None
    } else if s[i] == q {
        Some(i)
    } else {
        find_from(s, i + 1, q)
    }
}

/// The first position at or after `i` that does not continue a bare value.
pub open spec fn bare_end(s: Seq<char>, i: int) -> int
    decreases s.len() - i,
{
    if 0 <= i < s.len() && value_char(s[i]) {
        bare_end(s, i + 1)
    } else {
        i
    }
}

/// The two characters `a`, `b` stand at `i`.
pub open spec fn pair_at(s: Seq<char>, i: int, a: char, b: char) -> bool {
    0 <= i && i + 2 <= s.len() && s[i] == a && s[i + 1] == b
}

/// A keyword of `n` characters ends at `e`: nothing that continues a word follows.
pub open spec fn word_ends(s: Seq<char>, e: int) -> bool {
    !(e < s.len() && word_char(s[e]))
}

/// The keyword `and` stands at `i`, not as the start of a longer word.
pub open spec fn and_at(s: Seq<char>, i: int) -> bool {
    &&& 0 <= i && i + 3 <= s.len()
    &&& s[i] == 'a' && s[i + 1] == 'n' && s[i + 2] == 'd'
    &&& word_ends(s, i + 3)
}

/// The keyword `or` stands at `i`, not as the start of a longer word.
pub open spec fn or_at(s: Seq<char>, i: int) -> bool {
    &&& 0 <= i && i + 2 <= s.len()
    &&& s[i] == 'o' && s[i + 1] == 'r'
    &&& word_ends(s, i + 2)
}

pub proof fn lemma_skip_bounds(s: Seq<char>, i: int)
    requires
        0 <= i <= s.len(),
    ensures
        i <= skip(s, i) <= s.len(),
        skip(s, i) < s.len() ==> !is_ws(s[skip(s, i)]),
    decreases s.len() - i,
{
    if i < s.len() && is_ws(s[i]) {
        lemma_skip_bounds(s, i + 1);
    }
}

proof fn lemma_find_bounds(s: Seq<char>, i: int, q: char)
    requires
        0 <= i,
    ensures
        find_from(s, i, q) matches Some(e) ==> i <= e < s.len() && s[e] == q,
    decreases s.len() - i,
{
    if 0 <= i < s.len() && s[i] != q {
        lemma_find_bounds(s, i + 1, q);
    }
}

proof fn lemma_bare_bounds(s: Seq<char>, i: int)
    requires
        0 <= i <= s.len(),
    ensures
        i <= bare_end(s, i) <= s.len(),
    decreases s.len() - i,
{
    if i < s.len() && value_char(s[i]) {
        lemma_bare_bounds(s, i + 1);
    }
}

// ── The grammar, as spec functions ──

/// `value`: its text and the position after it.
pub open spec fn value_spec(s: Seq<char>, i: int) -> Option<(Seq<char>, int)> {
    let t = skip(s, i);
    if t < s.len() && s[t] == '\'' {
        match find_from(s, t + 1, '\'') {
            Some(e) => Some((s.subrange(t + 1, e), e + 1)),
            None => None,
        }
    } else if t < s.len() && s[t] == '"' {
        match find_from(s, t + 1, '"') {
            Some(e) => Some((s.subrange(t + 1, e), e + 1)),
            None => None,
        }
    } else {
        let e = bare_end(s, t);
        if e == t {
            None
        } else {
            Some((s.subrange(t, e), e))
        }
    }
}

/// `compare`: a value, optionally compared with `==` or `!=` to another.
pub open spec fn compare_spec(s: Seq<char>, i: int) -> Option<(bool, int)> {
    match value_spec(s, i) {
        None => None,
        Some((lhs, j)) => {
            let k = skip(s, j);
            if pair_at(s, k, '=', '=') {
                match value_spec(s, k + 2) {
                    Some((rhs, j2)) => Some((lhs == rhs, j2)),
                    None => None,
                }
            } else if pair_at(s, k, '!', '=') {
                match value_spec(s, k + 2) {
                    Some((rhs, j2)) => Some((lhs != rhs, j2)),
                    None => None,
                }
            } else {
                Some((lhs == "true"@, j))
            }
        },
    }
}

/// `atom`: a parenthesized expression or a comparison.
pub open spec fn atom_spec(s: Seq<char>, i: int) -> Option<(bool, int)>
    decreases s.len() - i, 0int,
{
    if i < 0 || i > s.len() {
        None
    } else {
        proof {
            lemma_skip_bounds(s, i);
        }
        let t = skip(s, i);
        if t < s.len() && s[t] == '(' {
            match or_spec(s, t + 1) {
                Some((b, j)) => {
                    if j < 0 || j > s.len() {
                        None
                    } else {
                        let k = skip(s, j);
                        if k < s.len() && s[k] == ')' {
                            Some((b, k + 1))
                        } else {
                            None
                        }
                    }
                },
                None => None,
            }
        } else {
            compare_spec(s, i)
        }
    }
}

/// The rest of an `and_expr` after its first atom, whose value is `acc`.
pub open spec fn and_tail(s: Seq<char>, acc: bool, j: int) -> Option<(bool, int)>
    decreases s.len() - j, 0int,
{
    if j < 0 || j > s.len() {
        None
    } else {
        proof {
            lemma_skip_bounds(s, j);
        }
        let k = skip(s, j);
        if and_at(s, k) {
            match atom_spec(s, k + 3) {
                Some((rhs, j2)) => if j2 <= j || j2 > s.len() {
                    None
                } else {
                    and_tail(s, acc && rhs, j2)
                },
                None => None,
            }
        } else {
            Some((acc, j))
        }
    }
}

/// `and_expr`.
pub open spec fn and_spec(s: Seq<char>, i: int) -> Option<(bool, int)>
    decreases s.len() - i, 1int,
{
    match atom_spec(s, i) {
        Some((b, j)) => if j < i || j > s.len() {
            None
        } else {
            and_tail(s, b, j)
        },
        None => None,
    }
}

/// The rest of an `or_expr` after its first `and_expr`, whose value is `acc`.
pub open spec fn or_tail(s: Seq<char>, acc: bool, j: int) -> Option<(bool, int)>
    decreases s.len() - j, 1int,
{
    if j < 0 || j > s.len() {
        None
    } else {
        proof {
            lemma_skip_bounds(s, j);
        }
        let k = skip(s, j);
        if or_at(s, k) {
            match and_spec(s, k + 2) {
                Some((rhs, j2)) => if j2 <= j || j2 > s.len() {
                    None
                } else {
                    or_tail(s, acc || rhs, j2)
                },
                None => None,
            }
        } else {
            Some((acc, j))
        }
    }
}

/// `or_expr` (and so `expr`).
pub open spec fn or_spec(s: Seq<char>, i: int) -> Option<(bool, int)>
    decreases s.len() - i, 2int,
{
    match and_spec(s, i) {
        Some((b, j)) => if j < i || j > s.len() {
            None
        } else {
            or_tail(s, b, j)
        },
        None => None,
    }
}

/// What a condition evaluates to: the expression's value when the whole
/// (trimmed) text parses as one, else whether it is exactly `true`.
pub open spec fn condition_holds(expr: Seq<char>) -> bool {
    let t = trim(expr);
    if t.len() == 0 {
        false
    } else {
        match or_spec(t, 0) {
            Some((b, j)) => if 0 <= j <= t.len() && skip(t, j) == t.len() {
                b
            } else {
                t == "true"@
            },
            None => t == "true"@,
        }
    }
}

/// The text `q1 x q1 == q2 y q2`: two quoted values compared with `==`.
pub open spec fn quoted_eq_text(q1: char, x: Seq<char>, q2: char, y: Seq<char>) -> Seq<char> {
    seq![q1] + x + seq![q1, ' ', '=', '=', ' ', q2] + y + seq![q2]
}

proof fn lemma_value_char_plain(c: char)
    requires
        value_char(c),
    ensures
        c != '"',
        c != '\'',
{
}

proof fn lemma_find_at(s: Seq<char>, i: int, e: int, q: char)
    requires
        0 <= i <= e < s.len(),
        s[e] == q,
        forall|k: int| i <= k < e ==> s[k] != q,
    ensures
        find_from(s, i, q) == Some(e),
    decreases e - i,
{
    if i < e {
        lemma_find_at(s, i + 1, e, q);
    }
}

/// A value in single or double quotes stands for its contents: for every
/// word `x` of value characters, `"x" == 'x'`, `'x' == "x"`, `"x" == "x"`
/// and `'x' == 'x'` all hold.
pub proof fn lemma_quoted_values_compare_by_contents(q1: char, q2: char, x: Seq<char>)
    requires
        q1 == '"' || q1 == '\'',
        q2 == '"' || q2 == '\'',
        x.len() > 0,
        forall|i: int| 0 <= i < x.len() ==> value_char(#[trigger] x[i]),
    ensures
        condition_holds(quoted_eq_text(q1, x, q2, x)),
{
    let s = quoted_eq_text(q1, x, q2, x);
    let n = x.len() as int;
    let len = 2 * n + 8;
    assert(s.len() == len);
    assert forall|k: int| 1 <= k < n + 1 implies s[k] != q1 && s[k] != q2 by {
        assert(s[k] == x[k - 1]);
        lemma_value_char_plain(x[k - 1]);
    }
    assert forall|k: int| n + 7 <= k < 2 * n + 7 implies s[k] != q2 by {
        assert(s[k] == x[k - n - 7]);
        lemma_value_char_plain(x[k - n - 7]);
    }
    assert(s[0] == q1);
    assert(s[n + 1] == q1);
    assert(s[n + 2] == ' ');
    assert(s[n + 3] == '=');
    assert(s[n + 4] == '=');
    assert(s[n + 5] == ' ');
    assert(s[n + 6] == q2);
    assert(s[2 * n + 7] == q2);
    // The text is its own trim.
    assert(!is_ws(s[0]));
    assert(trim_start(s) == s);
    assert(!is_ws(s.last()));
    assert(trim_end(s) == s);
    assert(trim(s) == s);
    // The left value.
    assert(skip(s, 0) == 0);
    lemma_find_at(s, 1, n + 1, q1);
    assert(s.subrange(1, n + 1) =~= x);
    assert(value_spec(s, 0) == Some((x, n + 2)));
    // `==`.
    assert(skip(s, n + 3) == n + 3);
    assert(skip(s, n + 2) == n + 3);
    assert(pair_at(s, n + 3, '=', '='));
    // The right value.
    assert(skip(s, n + 6) == n + 6);
    assert(skip(s, n + 5) == n + 6);
    lemma_find_at(s, n + 7, 2 * n + 7, q2);
    assert(s.subrange(n + 7, 2 * n + 7) =~= x);
    assert(value_spec(s, n + 5) == Some((x, len)));
    assert(compare_spec(s, 0) == Some((true, len)));
    assert(atom_spec(s, 0) == Some((true, len)));
    assert(skip(s, len) == len);
    assert(!and_at(s, len));
    assert(and_tail(s, true, len) == Some((true, len)));
    assert(and_spec(s, 0) == Some((true, len)));
    assert(!or_at(s, len));
    assert(or_tail(s, true, len) == Some((true, len)));
    assert(or_spec(s, 0) == Some((true, len)));
}

// ── Executable parser ──

fn skip_spaces(v: &[char], i: usize) -> (k: usize)
    requires
        i <= v@.len(),
    ensures
        k == skip(v@, i as int),
        i <= k <= v@.len(),
{
    let mut k = i;
    while k < v.len() && is_ws_exec(v[k])
        invariant
            i <= k <= v@.len(),
            skip(v@, i as int) == skip(v@, k as int),
        decreases v@.len() - k,
    {
        k += 1;
    }
    k
}

fn find_char(v: &[char], i: usize, q: char) -> (r: Option<usize>)
    requires
        i <= v@.len(),
    ensures
        match r {
            Some(e) => find_from(v@, i as int, q) == Some(e as int),
            None => find_from(v@, i as int, q) is None,
        },
{
    let mut k = i;
    while k < v.len()
        invariant
            i <= k <= v@.len(),
            find_from(v@, i as int, q) == find_from(v@, k as int, q),
        decreases v@.len() - k,
    {
        if v[k] == q {
            return Some(k);
        }
        k += 1;
    }
    None
}

fn is_value_char(c: char) -> (r: bool)
    ensures
        r == value_char(c),
{
    is_alphanumeric(c) || c == '_' || c == '-' || c == '.' || c == '/'
}

fn bare_end_at(v: &[char], i: usize) -> (e: usize)
    requires
        i <= v@.len(),
    ensures
        e == bare_end(v@, i as int),
        i <= e <= v@.len(),
{
    let mut k = i;
    while k < v.len() && is_value_char(v[k])
        invariant
            i <= k <= v@.len(),
            bare_end(v@, i as int) == bare_end(v@, k as int),
        decreases v@.len() - k,
    {
        k += 1;
    }
    k
}

fn pair_here(v: &[char], i: usize, a: char, b: char) -> (r: bool)
    requires
        i <= v@.len(),
    ensures
        r == pair_at(v@, i as int, a, b),
{
    i < v.len() && v.len() - i >= 2 && v[i] == a && v[i + 1] == b
}

fn word_ends_here(v: &[char], e: usize) -> (r: bool)
    requires
        e <= v@.len(),
    ensures
        r == word_ends(v@, e as int),
{
    if e < v.len() {
        !(is_alphanumeric(v[e]) || v[e] == '_')
    } else {
        true
    }
}

fn and_here(v: &[char], i: usize) -> (r: bool)
    requires
        i <= v@.len(),
    ensures
        r == and_at(v@, i as int),
{
    v.len() - i >= 3 && v[i] == 'a' && v[i + 1] == 'n' && v[i + 2] == 'd' && word_ends_here(
        v,
        i + 3,
    )
}

fn or_here(v: &[char], i: usize) -> (r: bool)
    requires
        i <= v@.len(),
    ensures
        r == or_at(v@, i as int),
{
    v.len() - i >= 2 && v[i] == 'o' && v[i + 1] == 'r' && word_ends_here(v, i + 2)
}

fn range_eq(v: &[char], a: usize, b: usize, c: usize, d: usize) -> (r: bool)
    requires
        a <= b <= v@.len(),
        c <= d <= v@.len(),
    ensures
        r == (v@.subrange(a as int, b as int) == v@.subrange(c as int, d as int)),
{
    if b - a != d - c {
        assert(v@.subrange(a as int, b as int).len() != v@.subrange(c as int, d as int).len());
        return false;
    }
    let ghost x = v@.subrange(a as int, b as int);
    let ghost y = v@.subrange(c as int, d as int);
    let mut k: usize = 0;
    while k < b - a
        invariant
            a <= b <= v@.len(),
            c <= d <= v@.len(),
            b - a == d - c,
            x == v@.subrange(a as int, b as int),
            y == v@.subrange(c as int, d as int),
            k <= b - a,
            forall|j: int| 0 <= j < k ==> #[trigger] x[j] == y[j],
        decreases b - a - k,
    {
        if v[a + k] != v[c + k] {
            assert(x[k as int] != y[k as int]);
            return false;
        }
        assert(x[k as int] == y[k as int]);
        k += 1;
    }
    assert(x =~= y);
    true
}

fn range_is(v: &[char], a: usize, b: usize, lit: &str) -> (r: bool)
    requires
        a <= b <= v@.len(),
    ensures
        r == (v@.subrange(a as int, b as int) == lit@),
{
    let l = to_chars(lit);
    if b - a != l.len() {
        assert(v@.subrange(a as int, b as int).len() != l@.len());
        return false;
    }
    let mut k: usize = 0;
    while k < l.len()
        invariant
            a <= b <= v@.len(),
            b - a == l@.len(),
            l@ == lit@,
            k <= l@.len(),
            forall|j: int| 0 <= j < k ==> v@[a + j] == l@[j],
        decreases l@.len() - k,
    {
        if v[a + k] != l[k] {
            assert(v@.subrange(a as int, b as int)[k as int] != l@[k as int]);
            return false;
        }
        k += 1;
    }
    assert(v@.subrange(a as int, b as int) =~= l@);
    true
}

/// `value`: the bounds of its text and the position after it.
fn parse_value(v: &[char], i: usize) -> (r: Option<(usize, usize, usize)>)
    requires
        i <= v@.len(),
    ensures
        match r {
            Some((a, b, j)) => {
                &&& a <= b <= j <= v@.len()
                &&& i <= j
                &&& value_spec(v@, i as int) == Some((v@.subrange(a as int, b as int), j as int))
            },
            None => value_spec(v@, i as int) is None,
        },
{
    let t = skip_spaces(v, i);
    if t < v.len() && (v[t] == '\'' || v[t] == '"') {
        let q = v[t];
        match find_char(v, t + 1, q) {
            Some(e) => {
                proof {
                    lemma_find_bounds(v@, t + 1, q);
                }
                Some((t + 1, e, e + 1))
            },
            None => None,
        }
    } else {
        let e = bare_end_at(v, t);
        if e == t {
            None
        } else {
            Some((t, e, e))
        }
    }
}

fn parse_compare(v: &[char], i: usize) -> (r: Option<(bool, usize)>)
    requires
        i <= v@.len(),
    ensures
        match r {
            Some((b, j)) => i <= j <= v@.len() && compare_spec(v@, i as int) == Some((b, j as int)),
            None => compare_spec(v@, i as int) is None,
        },
{
    let (a, b, j) = match parse_value(v, i) {
        Some(x) => x,
        None => return None,
    };
    let k = skip_spaces(v, j);
    let n = v.len();
    if pair_here(v, k, '=', '=') {
        match parse_value(v, k + 2) {
            Some((c, d, j2)) => Some((range_eq(v, a, b, c, d), j2)),
            None => None,
        }
    } else if pair_here(v, k, '!', '=') {
        match parse_value(v, k + 2) {
            Some((c, d, j2)) => Some((!range_eq(v, a, b, c, d), j2)),
            None => None,
        }
    } else {
        Some((range_is(v, a, b, "true"), j))
    }
}

fn parse_atom(v: &[char], i: usize) -> (r: Option<(bool, usize)>)
    requires
        i <= v@.len(),
    ensures
        match r {
            Some((b, j)) => i <= j <= v@.len() && atom_spec(v@, i as int) == Some((b, j as int)),
            None => atom_spec(v@, i as int) is None,
        },
    decreases v@.len() - i, 0int,
{
    let t = skip_spaces(v, i);
    if t < v.len() && v[t] == '(' {
        match parse_expr(v, t + 1) {
            Some((b, j)) => {
                let k = skip_spaces(v, j);
                if k < v.len() && v[k] == ')' {
                    Some((b, k + 1))
                } else {
                    None
                }
            },
            None => None,
        }
    } else {
        parse_compare(v, i)
    }
}

fn parse_and_expr(v: &[char], i: usize) -> (r: Option<(bool, usize)>)
    requires
        i <= v@.len(),
    ensures
        match r {
            Some((b, j)) => i <= j <= v@.len() && and_spec(v@, i as int) == Some((b, j as int)),
            None => and_spec(v@, i as int) is None,
        },
    decreases v@.len() - i, 1int,
{
    let (mut acc, mut j) = match parse_atom(v, i) {
        Some(x) => x,
        None => return None,
    };
    assert(and_spec(v@, i as int) == and_tail(v@, acc, j as int));
    loop
        invariant
            i <= j <= v@.len(),
            and_spec(v@, i as int) == and_tail(v@, acc, j as int),
        decreases v@.len() - j,
    {
        let k = skip_spaces(v, j);
        let n = v.len();
        if and_here(v, k) {
            match parse_atom(v, k + 3) {
                Some((rhs, j2)) => {
                    acc = acc && rhs;
                    j = j2;
                },
                None => return None,
            }
        } else {
            return Some((acc, j));
        }
    }
}

fn parse_or_expr(v: &[char], i: usize) -> (r: Option<(bool, usize)>)
    requires
        i <= v@.len(),
    ensures
        match r {
            Some((b, j)) => i <= j <= v@.len() && or_spec(v@, i as int) == Some((b, j as int)),
            None => or_spec(v@, i as int) is None,
        },
    decreases v@.len() - i, 2int,
{
    let (mut acc, mut j) = match parse_and_expr(v, i) {
        Some(x) => x,
        None => return None,
    };
    assert(or_spec(v@, i as int) == or_tail(v@, acc, j as int));
    loop
        invariant
            i <= j <= v@.len(),
            or_spec(v@, i as int) == or_tail(v@, acc, j as int),
        decreases v@.len() - j,
    {
        let k = skip_spaces(v, j);
        let n = v.len();
        if or_here(v, k) {
            match parse_and_expr(v, k + 2) {
                Some((rhs, j2)) => {
                    acc = acc || rhs;
                    j = j2;
                },
                None => return None,
            }
        } else {
            return Some((acc, j));
        }
    }
}

fn parse_expr(v: &[char], i: usize) -> (r: Option<(bool, usize)>)
    requires
        i <= v@.len(),
    ensures
        match r {
            Some((b, j)) => i <= j <= v@.len() && or_spec(v@, i as int) == Some((b, j as int)),
            None => or_spec(v@, i as int) is None,
        },
    decreases v@.len() - i, 3int,
{
    parse_or_expr(v, i)
}

/// Evaluate a condition: the value of the expression when the whole text
/// parses as one, else whether the text is exactly `true`.
pub fn evaluate(expr: &str) -> (r: bool)
    ensures
        r == condition_holds(expr@),
{
    let t = trimmed_chars(expr);
    if t.len() == 0 {
        return false;
    }
    match parse_expr(t.as_slice(), 0) {
        Some((b, j)) => {
            if skip_spaces(t.as_slice(), j) == t.len() {
                return b;
            }
        },
        None => {},
    }
    chars_eq_str(t.as_slice(), "true")
}

/// Whether an entity with these conditions is kept: its `if:` holds (or
/// is absent) and its `unless:` does not hold (or is absent).
pub open spec fn included(if_cond: Option<Seq<char>>, unless_cond: Option<Seq<char>>) -> bool {
    &&& (if_cond matches Some(e) ==> condition_holds(e))
    &&& (unless_cond matches Some(e) ==> !condition_holds(e))
}

/// Check whether an entity should be kept, given its `if:` and `unless:`.
pub fn should_include(if_cond: Option<&str>, unless_cond: Option<&str>) -> (r: bool)
    ensures
        r == included(
            match if_cond {
                Some(e) => Some(e@),
                None => None,
            },
            match unless_cond {
                Some(e) => Some(e@),
                None => None,
            },
        ),
{
    if let Some(e) = if_cond {
        if !evaluate(e) {
            return false;
        }
    }
    if let Some(e) = unless_cond {
        if evaluate(e) {
            return false;
        }
    }
    true
}

} // verus!
