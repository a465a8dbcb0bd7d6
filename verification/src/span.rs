//! Source span tracking for diagnostics.
//!
//! A [`SpanIndex`] maps dot-separated key paths (`"topics.chatter"`) to the
//! byte range of the key in the YAML text. It is built by feeding the YAML
//! parser's events, in order, to a [`SpanReceiver`].

use vstd::prelude::*;
use vstd::utf8::encode_utf8;
use core::ops::Range;
use crate::text::{push_str, push_char, owned, str_eq};
use yaml_rust2::parser::{Event, Parser};

verus! {

/// A value paired with its source location.
#[derive(Debug)]
pub struct Spanned<T> {
    pub value: T,
    pub span: Range<usize>,
}

impl<T: Clone> Clone for Spanned<T> {
    fn clone(&self) -> (r: Self) {
        Spanned { value: self.value.clone(), span: self.span.start..self.span.end }
    }
}

impl<T> Spanned<T> {
    pub fn new(value: T, span: Range<usize>) -> (r: Self)
        ensures
            r.value == value,
            r.span == span,
    {
        Spanned { value, span }
    }

    /// A `Spanned` with no location (span `0..0`).
    pub fn no_span(value: T) -> (r: Self)
        ensures
            r.value == value,
            r.span.start == 0 && r.span.end == 0,
    {
        Spanned { value, span: 0..0 }
    }
}

// ── Lines ──

/// The byte offsets where the lines of `bytes` begin: 0, and one past every
/// newline.
pub open spec fn line_starts_of(bytes: Seq<u8>) -> Seq<int>
    decreases bytes.len(),
{
    if bytes.len() == 0 {
        seq![0]
    } else if bytes.last() == 10u8 {
        line_starts_of(bytes.drop_last()).push(bytes.len() as int)
    } else {
        line_starts_of(bytes.drop_last())
    }
}

/// Build the line-starts table of a source text (byte offsets).
pub fn line_starts(source: &str) -> (r: Vec<usize>)
    ensures
        r@.len() == line_starts_of(encode_utf8(source@)).len(),
        forall|i: int|
            0 <= i < r@.len() ==> #[trigger] r@[i] as int == line_starts_of(encode_utf8(source@))[i],
{
    let b = source.as_bytes();
    let ghost bytes = encode_utf8(source@);
    let mut starts: Vec<usize> = Vec::new();
    starts.push(0);
    let mut i: usize = 0;
    assert(bytes.take(0) =~= Seq::<u8>::empty());
    while i < b.len()
        invariant
            b@ == bytes,
            i <= b@.len(),
            starts@.len() == line_starts_of(bytes.take(i as int)).len(),
            forall|j: int|
                0 <= j < starts@.len() ==> #[trigger] starts@[j] as int == line_starts_of(
                    bytes.take(i as int),
                )[j],
        decreases b@.len() - i,
    {
        let ghost before = starts@;
        assert(bytes.take(i + 1).drop_last() =~= bytes.take(i as int));
        if b[i] == 10u8 {
            starts.push(i + 1);
        }
        i += 1;
    }
    assert(bytes.take(b@.len() as int) =~= bytes);
    starts
}

/// The byte offset of 0-based `(line, col)`; past the last line, the start
/// of the last line (0 for an empty table).
pub open spec fn offset_of(starts: Seq<usize>, line: int, col: int) -> int {
    if line < starts.len() {
        starts[line] + col
    } else if starts.len() > 0 {
        starts.last() as int
    } else {
        0
    }
}

/// Convert a 0-based `(line, col)` pair to a byte offset.
pub fn line_col_to_offset(starts: &[usize], line: usize, col: usize) -> (r: usize)
    requires
        line < starts@.len() ==> starts@[line as int] + col <= usize::MAX,
    ensures
        r == offset_of(starts@, line as int, col as int),
{
    if line < starts.len() {
        starts[line] + col
    } else if starts.len() > 0 {
        starts[starts.len() - 1]
    } else {
        0
    }
}

// ── Span tables ──

/// The span recorded for `k`: that of its first entry.
pub open spec fn span_of(spans: Seq<(String, (usize, usize))>, k: Seq<char>) -> Option<(usize, usize)> {
    if exists|i: int| 0 <= i < spans.len() && spans[i].0@ == k {
        let i = choose|i: int| 0 <= i < spans.len() && spans[i].0@ == k;
        Some(spans[i].1)
    } else {
        None
    }
}

/// No two entries share a path.
pub open spec fn paths_unique(spans: Seq<(String, (usize, usize))>) -> bool {
    forall|i: int, j: int|
        0 <= i < spans.len() && 0 <= j < spans.len() && i != j ==> spans[i].0@ != spans[j].0@
}

/// Record `k -> start..end`, replacing an earlier span for `k`.
fn insert_span(spans: &mut Vec<(String, (usize, usize))>, k: String, start: usize, end: usize)
    requires
        paths_unique(old(spans)@),
    ensures
        paths_unique(final(spans)@),
        forall|p: Seq<char>|
            #[trigger] span_of(final(spans)@, p) == if p == k@ {
                Some((start, end))
            } else {
                span_of(old(spans)@, p)
            },
{
    let ghost before = spans@;
    let mut i: usize = 0;
    while i < spans.len()
        invariant
            spans@ == before,
            before == old(spans)@,
            paths_unique(before),
            i <= before.len(),
            forall|j: int| 0 <= j < i ==> before[j].0@ != k@,
        decreases before.len() - i,
    {
        if str_eq(spans[i].0.as_str(), k.as_str()) {
            spans.set(i, (k, (start, end)));
            proof {
                assert forall|p: Seq<char>| #[trigger] span_of(spans@, p) == if p == k@ {
                    Some((start, end))
                } else {
                    span_of(before, p)
                } by {
                    if p == k@ {
                        assert(spans@[i as int].0@ == p);
                        let c = choose|c: int| 0 <= c < spans@.len() && spans@[c].0@ == p;
                        assert(c == i);
                    } else {
                        assert forall|c: int| 0 <= c < spans@.len() implies (spans@[c].0@ == p
                            <==> before[c].0@ == p) by {
                            if c == i {
                                assert(before[c].0@ == k@);
                            }
                        }
                        if exists|c: int| 0 <= c < before.len() && before[c].0@ == p {
                            let c = choose|c: int| 0 <= c < before.len() && before[c].0@ == p;
                            assert(spans@[c].0@ == p);
                            let d = choose|d: int| 0 <= d < spans@.len() && spans@[d].0@ == p;
                            assert(before[d].0@ == p);
                            assert(c == d);
                            assert(spans@[d] == before[d]);
                        }
                    }
                }
            }
            return;
        }
        i += 1;
    }
    spans.push((k, (start, end)));
    proof {
        let n = before.len() as int;
        assert forall|p: Seq<char>| #[trigger] span_of(spans@, p) == if p == k@ {
            Some((start, end))
        } else {
            span_of(before, p)
        } by {
            if p == k@ {
                assert(spans@[n].0@ == p);
                let c = choose|c: int| 0 <= c < spans@.len() && spans@[c].0@ == p;
                if c < n {
                    assert(before[c].0@ == k@);
                }
            } else {
                if exists|c: int| 0 <= c < before.len() && before[c].0@ == p {
                    let c = choose|c: int| 0 <= c < before.len() && before[c].0@ == p;
                    assert(spans@[c].0@ == p);
                    let d = choose|d: int| 0 <= d < spans@.len() && spans@[d].0@ == p;
                    assert(d < n);
                    assert(before[d].0@ == p);
                    assert(c == d);
                } else {
                    assert forall|c: int| 0 <= c < spans@.len() implies spans@[c].0@ != p by {
                        if c < n {
                            assert(spans@[c] == before[c]);
                        }
                    }
                }
            }
        }
    }
}

/// Index mapping YAML key paths to byte ranges in the source text.
#[derive(Debug, Clone)]
pub struct SpanIndex {
    /// Dot-path -> byte range of the key token.
    pub spans: Vec<(String, (usize, usize))>,
    /// The source text the spans point into.
    pub source: String,
}

impl SpanIndex {
    /// Look up the byte range for a dot-separated key path.
    pub fn get(&self, path: &str) -> (r: Option<Range<usize>>)
        requires
            paths_unique(self.spans@),
        ensures
            match span_of(self.spans@, path@) {
                Some((s, e)) => r matches Some(rg) && rg.start == s && rg.end == e,
                None => r is None,
            },
    {
        let mut i: usize = 0;
        while i < self.spans.len()
            invariant
                i <= self.spans@.len(),
                paths_unique(self.spans@),
                forall|j: int| 0 <= j < i ==> self.spans@[j].0@ != path@,
            decreases self.spans@.len() - i,
        {
            if str_eq(self.spans[i].0.as_str(), path) {
                let rg = self.spans[i].1;
                proof {
                    let c = choose|c: int| 0 <= c < self.spans@.len() && self.spans@[c].0@ == path@;
                    assert(c == i);
                }
                return Some(rg.0..rg.1);
            }
            i += 1;
        }
        None
    }
}

// ── Building the index from parser events ──

/// The parser events the index reads; everything else is [`SpanEvent::Other`].
#[derive(Debug, Clone, PartialEq, Eq)]
pub enum SpanEvent {
    MappingStart,
    MappingEnd,
    SequenceStart,
    SequenceEnd,
    /// A scalar's text and the byte offset where it starts.
    Scalar { value: String, index: usize },
    Other,
}

/// One level of nesting.
#[derive(Debug, Clone)]
pub struct StackEntry {
    pub segment: String,
    pub is_mapping: bool,
    pub seq_index: usize,
}

/// Event receiver that builds the span index.
#[derive(Debug, Clone)]
pub struct SpanReceiver {
    /// Nesting, outermost first.
    pub stack: Vec<StackEntry>,
    /// The key just read and its offset, until its value opens a container.
    pub pending_key: Option<(String, usize)>,
    /// Whether the next scalar is a key.
    pub expect_key: bool,
    /// Collected spans.
    pub spans: Vec<(String, (usize, usize))>,
}

/// The dot-joined non-empty segments of the stack.
pub open spec fn joined_path(stack: Seq<StackEntry>) -> Seq<char>
    decreases stack.len(),
{
    if stack.len() == 0 {
        Seq::empty()
    } else {
        let p = joined_path(stack.drop_last());
        let s = stack.last().segment@;
        if s.len() == 0 {
            p
        } else if p.len() == 0 {
            s
        } else {
            p + seq!['.'] + s
        }
    }
}

/// The path a key `k` gets under the current nesting.
pub open spec fn key_path(stack: Seq<StackEntry>, k: Seq<char>) -> Seq<char> {
    if joined_path(stack).len() == 0 {
        k
    } else {
        joined_path(stack) + seq!['.'] + k
    }
}

/// After a container closes, a key comes next when the parent is a mapping.
pub open spec fn expects_key_after_close(stack: Seq<StackEntry>, was: bool) -> bool {
    if stack.len() > 0 && stack.last().is_mapping {
        true
    } else {
        was
    }
}

/// The segment a new container takes: the pending key, if any.
pub open spec fn pending_segment(p: Option<(String, usize)>) -> Seq<char> {
    match p {
        Some((k, _)) => k@,
        None => Seq::empty(),
    }
}

impl SpanReceiver {
    pub fn new() -> (r: Self)
        ensures
            r.stack@.len() == 0,
            r.pending_key is None,
            !r.expect_key,
            r.spans@.len() == 0,
    {
        SpanReceiver { stack: Vec::new(), pending_key: None, expect_key: false, spans: Vec::new() }
    }

    /// The dot-joined non-empty segments of the current nesting.
    pub fn current_path(&self) -> (r: String)
        ensures
            r@ == joined_path(self.stack@),
    {
        let mut s = String::new();
        let mut i: usize = 0;
        assert(self.stack@.take(0) =~= Seq::<StackEntry>::empty());
        while i < self.stack.len()
            invariant
                i <= self.stack@.len(),
                s@ == joined_path(self.stack@.take(i as int)),
            decreases self.stack@.len() - i,
        {
            let seg = self.stack[i].segment.as_str();
            proof {
                assert(self.stack@.take(i + 1).drop_last() =~= self.stack@.take(i as int));
            }
            if !seg.is_empty() {
                if !s.as_str().is_empty() {
                    push_char(&mut s, '.');
                }
                push_str(&mut s, seg);
            }
            i += 1;
        }
        assert(self.stack@.take(self.stack@.len() as int) =~= self.stack@);
        s
    }

    fn take_segment(&mut self) -> (r: String)
        ensures
            r@ == pending_segment(old(self).pending_key),
            final(self).pending_key is None,
            final(self).stack == old(self).stack,
            final(self).expect_key == old(self).expect_key,
            final(self).spans == old(self).spans,
    {
        match self.pending_key.take() {
            Some((key, _)) => key,
            None => String::new(),
        }
    }

    fn close_container(&mut self)
        ensures
            final(self).stack@ == (if old(self).stack@.len() > 0 {
                old(self).stack@.drop_last()
            } else {
                old(self).stack@
            }),
            final(self).expect_key == expects_key_after_close(
                final(self).stack@,
                old(self).expect_key,
            ),
            final(self).pending_key == old(self).pending_key,
            final(self).spans == old(self).spans,
    {
        self.stack.pop();
        let n = self.stack.len();
        if n > 0 && self.stack[n - 1].is_mapping {
            self.expect_key = true;
        }
    }

    /// Take one parser event.
    pub fn on_event(&mut self, ev: SpanEvent)
        requires
            paths_unique(old(self).spans@),
            old(self).stack@.len() > 0 ==> old(self).stack@.last().seq_index < usize::MAX,
            ev matches SpanEvent::Scalar { value, index } ==> index + encode_utf8(value@).len()
                <= usize::MAX,
        ensures
            paths_unique(final(self).spans@),
            match ev {
                SpanEvent::MappingStart => {
                    &&& final(self).stack@.len() == old(self).stack@.len() + 1
                    &&& final(self).stack@.drop_last() == old(self).stack@
                    &&& final(self).stack@.last().segment@ == pending_segment(old(self).pending_key)
                    &&& final(self).stack@.last().is_mapping
                    &&& final(self).stack@.last().seq_index == 0
                    &&& final(self).expect_key
                    &&& final(self).pending_key is None
                    &&& final(self).spans == old(self).spans
                },
                SpanEvent::SequenceStart => {
                    &&& final(self).stack@.len() == old(self).stack@.len() + 1
                    &&& final(self).stack@.drop_last() == old(self).stack@
                    &&& final(self).stack@.last().segment@ == pending_segment(old(self).pending_key)
                    &&& !final(self).stack@.last().is_mapping
                    &&& final(self).stack@.last().seq_index == 0
                    &&& final(self).expect_key == old(self).expect_key
                    &&& final(self).pending_key is None
                    &&& final(self).spans == old(self).spans
                },
                SpanEvent::MappingEnd | SpanEvent::SequenceEnd => {
                    &&& final(self).stack@ == (if old(self).stack@.len() > 0 {
                        old(self).stack@.drop_last()
                    } else {
                        old(self).stack@
                    })
                    &&& final(self).expect_key == expects_key_after_close(
                        final(self).stack@,
                        old(self).expect_key,
                    )
                    &&& final(self).pending_key == old(self).pending_key
                    &&& final(self).spans == old(self).spans
                },
                SpanEvent::Scalar { value, index } => if old(self).expect_key {
                    &&& final(self).pending_key matches Some((k, at)) && k@ == value@ && at == index
                    &&& !final(self).expect_key
                    &&& final(self).stack == old(self).stack
                    &&& forall|p: Seq<char>|
                        #[trigger] span_of(final(self).spans@, p) == if p == key_path(
                            old(self).stack@,
                            value@,
                        ) {
                            Some((index, (index + encode_utf8(value@).len()) as usize))
                        } else {
                            span_of(old(self).spans@, p)
                        }
                } else {
                    &&& final(self).pending_key is None
                    &&& final(self).spans == old(self).spans
                    &&& if old(self).stack@.len() == 0 {
                        &&& final(self).stack == old(self).stack
                        &&& final(self).expect_key == old(self).expect_key
                    } else if old(self).stack@.last().is_mapping {
                        &&& final(self).stack == old(self).stack
                        &&& final(self).expect_key
                    } else {
                        &&& final(self).stack@.len() == old(self).stack@.len()
                        &&& final(self).stack@.drop_last() == old(self).stack@.drop_last()
                        &&& final(self).stack@.last().segment == old(self).stack@.last().segment
                        &&& !final(self).stack@.last().is_mapping
                        &&& final(self).stack@.last().seq_index == old(self).stack@.last().seq_index
                            + 1
                        &&& final(self).expect_key == old(self).expect_key
                    }
                },
                SpanEvent::Other => *final(self) == *old(self),
            },
    {
        match ev {
            SpanEvent::MappingStart => {
                let segment = self.take_segment();
                self.stack.push(StackEntry { segment, is_mapping: true, seq_index: 0 });
                self.expect_key = true;
            },
            SpanEvent::MappingEnd => {
                self.close_container();
            },
            SpanEvent::SequenceStart => {
                let segment = self.take_segment();
                self.stack.push(StackEntry { segment, is_mapping: false, seq_index: 0 });
            },
            SpanEvent::SequenceEnd => {
                self.close_container();
            },
            SpanEvent::Scalar { value, index } => {
                if self.expect_key {
                    let byte_offset = index;
                    let len = value.as_str().len();
                    self.pending_key = Some((value.clone(), byte_offset));
                    self.expect_key = false;
                    let parent_path = self.current_path();
                    let mut full_path = String::new();
                    if parent_path.as_str().is_empty() {
                        push_str(&mut full_path, value.as_str());
                    } else {
                        push_str(&mut full_path, parent_path.as_str());
                        push_char(&mut full_path, '.');
                        push_str(&mut full_path, value.as_str());
                    }
                    assert(full_path@ =~= key_path(self.stack@, value@));
                    let key_end = byte_offset + len;
                    insert_span(&mut self.spans, full_path, byte_offset, key_end);
                } else {
                    self.pending_key = None;
                    let n = self.stack.len();
                    if n > 0 {
                        if self.stack[n - 1].is_mapping {
                            self.expect_key = true;
                        } else {
                            let mut top = self.stack.pop().unwrap();
                            top.seq_index = top.seq_index + 1;
                            self.stack.push(top);
                        }
                    }
                }
            },
            SpanEvent::Other => {},
        }
    }
}


// ── The index of a YAML text ──

/// The events yaml-rust2's parser produces for `text`, up to the end of the
/// stream or its first error, as the library's events.
pub uninterp spec fn yaml_span_events(text: Seq<char>) -> Seq<SpanEvent>;

/// yaml-rust2's `Parser::next_token`, called until the end of the stream or
/// an error: each event variant for variant, a scalar with the byte offset
/// of its start mark. Claimed: the events are a function of the text alone,
/// named [`yaml_span_events`]; nothing more is stated of them.
#[verifier::external_body]
fn span_events(text: &str) -> (r: Vec<SpanEvent>)
    ensures
        r@ == yaml_span_events(text@),
{
    let mut parser = Parser::new_from_str(text);
    let mut out = Vec::new();
    while let Ok((ev, mark)) = parser.next_token() {
        out.push(match ev {
            Event::StreamEnd => return out,
            Event::MappingStart(..) => SpanEvent::MappingStart,
            Event::MappingEnd => SpanEvent::MappingEnd,
            Event::SequenceStart(..) => SpanEvent::SequenceStart,
            Event::SequenceEnd => SpanEvent::SequenceEnd,
            Event::Scalar(value, ..) => SpanEvent::Scalar { value, index: mark.index() },
            Event::Nothing | Event::StreamStart | Event::DocumentStart | Event::DocumentEnd | Event::Alias(_) => SpanEvent::Other,
        });
    }
    out
}

/// One level of nesting as values: its segment, whether it is a mapping,
/// and the index of the next sequence item.
pub open spec fn level_of(e: StackEntry) -> (Seq<char>, bool, int) {
    (e.segment@, e.is_mapping, e.seq_index as int)
}

pub open spec fn levels(s: Seq<StackEntry>) -> Seq<(Seq<char>, bool, int)> {
    s.map_values(|e: StackEntry| level_of(e))
}

/// The dot-joined non-empty segments of some levels.
pub open spec fn joined_levels(s: Seq<(Seq<char>, bool, int)>) -> Seq<char>
    decreases s.len(),
{
    if s.len() == 0 {
        Seq::empty()
    } else {
        let p = joined_levels(s.drop_last());
        let g = s.last().0;
        if g.len() == 0 {
            p
        } else if p.len() == 0 {
            g
        } else {
            p + seq!['.'] + g
        }
    }
}

proof fn lemma_joined_levels(s: Seq<StackEntry>)
    ensures
        joined_levels(levels(s)) == joined_path(s),
    decreases s.len(),
{
    if s.len() > 0 {
        assert(levels(s).drop_last() =~= levels(s.drop_last()));
        lemma_joined_levels(s.drop_last());
    }
}

/// What a receiver holds after a run of events, as values; `stopped` once
/// an event came that the receiver's bounds cannot take.
pub struct SpanModel {
    pub levels: Seq<(Seq<char>, bool, int)>,
    pub pending: Option<(Seq<char>, int)>,
    pub expect_key: bool,
    pub spans: spec_fn(Seq<char>) -> Option<(usize, usize)>,
    pub stopped: bool,
}

pub open spec fn segment_of(p: Option<(Seq<char>, int)>) -> Seq<char> {
    match p {
        Some((k, _)) => k,
        None => Seq::empty(),
    }
}

/// The path a key `k` gets under some levels.
pub open spec fn key_path_levels(s: Seq<(Seq<char>, bool, int)>, k: Seq<char>) -> Seq<char> {
    if joined_levels(s).len() == 0 {
        k
    } else {
        joined_levels(s) + seq!['.'] + k
    }
}

/// What one event does to the receiver.
pub open spec fn model_step(m: SpanModel, ev: SpanEvent) -> SpanModel {
    match ev {
        SpanEvent::MappingStart => SpanModel {
            levels: m.levels.push((segment_of(m.pending), true, 0)),
            pending: None,
            expect_key: true,
            spans: m.spans,
            stopped: m.stopped,
        },
        SpanEvent::SequenceStart => SpanModel {
            levels: m.levels.push((segment_of(m.pending), false, 0)),
            pending: None,
            expect_key: m.expect_key,
            spans: m.spans,
            stopped: m.stopped,
        },
        SpanEvent::MappingEnd | SpanEvent::SequenceEnd => {
            let st = if m.levels.len() > 0 {
                m.levels.drop_last()
            } else {
                m.levels
            };
            SpanModel {
                levels: st,
                pending: m.pending,
                expect_key: if st.len() > 0 && st.last().1 {
                    true
                } else {
                    m.expect_key
                },
                spans: m.spans,
                stopped: m.stopped,
            }
        },
        SpanEvent::Scalar { value, index } => if m.expect_key {
            let k = key_path_levels(m.levels, value@);
            let rg = (index, (index + encode_utf8(value@).len()) as usize);
            SpanModel {
                levels: m.levels,
                pending: Some((value@, index as int)),
                expect_key: false,
                spans: |p: Seq<char>|
                    if p == k {
                        Some(rg)
                    } else {
                        (m.spans)(p)
                    },
                stopped: m.stopped,
            }
        } else if m.levels.len() == 0 {
            SpanModel { levels: m.levels, pending: None, expect_key: m.expect_key, spans: m.spans, stopped: m.stopped }
        } else if m.levels.last().1 {
            SpanModel { levels: m.levels, pending: None, expect_key: true, spans: m.spans, stopped: m.stopped }
        } else {
            let t = m.levels.last();
            SpanModel {
                levels: m.levels.drop_last().push((t.0, t.1, t.2 + 1)),
                pending: None,
                expect_key: m.expect_key,
                spans: m.spans,
                stopped: m.stopped,
            }
        },
        SpanEvent::Other => m,
    }
}

/// The receiver can take `ev`: sequence counters with room to grow, and a
/// key whose end offset fits.
pub open spec fn fits(m: SpanModel, ev: SpanEvent) -> bool {
    &&& m.levels.len() > 0 ==> m.levels.last().2 < usize::MAX
    &&& ev matches SpanEvent::Scalar { value, index } ==> index + encode_utf8(value@).len() <= usize::MAX
}

pub open spec fn span_start() -> SpanModel {
    SpanModel {
        levels: Seq::empty(),
        pending: None,
        expect_key: false,
        spans: |p: Seq<char>| None::<(usize, usize)>,
        stopped: false,
    }
}

/// The receiver after `evs`, from empty; it stops at the first event it
/// cannot take and keeps what it recorded before.
pub open spec fn span_run(evs: Seq<SpanEvent>) -> SpanModel
    decreases evs.len(),
{
    if evs.len() == 0 {
        span_start()
    } else {
        let m = span_run(evs.drop_last());
        if m.stopped || !fits(m, evs.last()) {
            SpanModel { levels: m.levels, pending: m.pending, expect_key: m.expect_key, spans: m.spans, stopped: true }
        } else {
            model_step(m, evs.last())
        }
    }
}

/// The range recorded for key path `p` after `evs`.
pub open spec fn span_after(evs: Seq<SpanEvent>, p: Seq<char>) -> Option<(usize, usize)> {
    (span_run(evs).spans)(p)
}

pub open spec fn pending_view(p: Option<(String, usize)>) -> Option<(Seq<char>, int)> {
    match p {
        Some((k, at)) => Some((k@, at as int)),
        None => None,
    }
}

/// Receiver `r` holds what model `m` says.
pub open spec fn receiver_models(r: SpanReceiver, m: SpanModel) -> bool {
    &&& levels(r.stack@) == m.levels
    &&& pending_view(r.pending_key) == m.pending
    &&& r.expect_key == m.expect_key
    &&& forall|p: Seq<char>| #[trigger] span_of(r.spans@, p) == (m.spans)(p)
    &&& !m.stopped
}

fn copy_event(ev: &SpanEvent) -> (r: SpanEvent)
    ensures
        r == *ev,
{
    match ev {
        SpanEvent::MappingStart => SpanEvent::MappingStart,
        SpanEvent::MappingEnd => SpanEvent::MappingEnd,
        SpanEvent::SequenceStart => SpanEvent::SequenceStart,
        SpanEvent::SequenceEnd => SpanEvent::SequenceEnd,
        SpanEvent::Scalar { value, index } => SpanEvent::Scalar { value: value.clone(), index: *index },
        SpanEvent::Other => SpanEvent::Other,
    }
}

fn can_take(rc: &SpanReceiver, ev: &SpanEvent) -> (b: bool)
    ensures
        b == ((rc.stack@.len() > 0 ==> rc.stack@.last().seq_index < usize::MAX) && (ev matches SpanEvent::Scalar {
            value,
            index,
        } ==> index + encode_utf8(value@).len() <= usize::MAX)),
{
    let n = rc.stack.len();
    if n > 0 && rc.stack[n - 1].seq_index == usize::MAX {
        return false;
    }
    match ev {
        SpanEvent::Scalar { value, index } => {
            let b = value.as_str().as_bytes();
            b.len() <= usize::MAX - *index
        },
        _ => true,
    }
}

impl SpanIndex {
    /// Build the span index of `source`: the parser's events replayed into a
    /// [`SpanReceiver`], stopping at a parse error, or at an event whose
    /// offsets the receiver cannot hold, with what was recorded before.
    pub fn build(source: &str) -> (r: SpanIndex)
        ensures
            r.source@ == source@,
            paths_unique(r.spans@),
            forall|p: Seq<char>| #[trigger] span_of(r.spans@, p) == span_after(yaml_span_events(source@), p),
    {
        let events = span_events(source);
        let ghost evs = events@;
        let mut rc = SpanReceiver::new();
        proof {
            assert(levels(rc.stack@) =~= Seq::<(Seq<char>, bool, int)>::empty());
            assert(evs.take(0) =~= Seq::<SpanEvent>::empty());
        }
        let mut halted = false;
        let mut i: usize = 0;
        while i < events.len()
            invariant
                i <= evs.len(),
                evs == events@,
                paths_unique(rc.spans@),
                forall|p: Seq<char>| #[trigger] span_of(rc.spans@, p) == (span_run(evs.take(i as int)).spans)(p),
                !halted ==> receiver_models(rc, span_run(evs.take(i as int))),
                halted ==> span_run(evs.take(i as int)).stopped,
            decreases evs.len() - i,
        {
            let ghost m = span_run(evs.take(i as int));
            proof {
                assert(evs.take(i + 1).drop_last() =~= evs.take(i as int));
                assert(evs.take(i + 1).last() == evs[i as int]);
            }
            if !halted {
                if can_take(&rc, &events[i]) {
                    proof {
                        if rc.stack@.len() > 0 {
                            assert(levels(rc.stack@).last() == level_of(rc.stack@.last()));
                        }
                    }
                    let ev = copy_event(&events[i]);
                    let ghost r0 = rc;
                    let ghost gev = ev;
                    rc.on_event(ev);
                    proof {
                        lemma_joined_levels(r0.stack@);
                        let m1 = model_step(m, gev);
                        assert(span_run(evs.take(i + 1)) == m1);
                        match gev {
                            SpanEvent::MappingStart | SpanEvent::SequenceStart => {
                                assert(levels(rc.stack@) =~= levels(r0.stack@).push(level_of(rc.stack@.last())));
                            },
                            SpanEvent::MappingEnd | SpanEvent::SequenceEnd => {
                                if r0.stack@.len() > 0 {
                                    assert(levels(rc.stack@) =~= levels(r0.stack@).drop_last());
                                }
                                if rc.stack@.len() > 0 {
                                    assert(levels(rc.stack@).last() == level_of(rc.stack@.last()));
                                }
                            },
                            SpanEvent::Scalar { value, index } => {
                                if !r0.expect_key && r0.stack@.len() > 0 && !r0.stack@.last().is_mapping {
                                    assert(levels(r0.stack@).last() == level_of(r0.stack@.last()));
                                    assert(rc.stack@.drop_last() == r0.stack@.drop_last());
                                    assert(levels(r0.stack@).drop_last() =~= levels(r0.stack@.drop_last()));
                                    assert(levels(rc.stack@).drop_last() =~= levels(rc.stack@.drop_last()));
                                    assert(levels(rc.stack@) =~= levels(r0.stack@).drop_last().push(
                                        level_of(rc.stack@.last()),
                                    ));
                                } else if r0.stack@.len() > 0 {
                                    assert(levels(r0.stack@).last() == level_of(r0.stack@.last()));
                                }
                            },
                            SpanEvent::Other => {},
                        }
                        assert(receiver_models(rc, m1));
                    }
                } else {
                    proof {
                        if rc.stack@.len() > 0 {
                            assert(levels(rc.stack@).last() == level_of(rc.stack@.last()));
                        }
                        assert(!fits(m, evs[i as int]));
                    }
                    halted = true;
                }
            }
            i += 1;
        }
        proof {
            assert(evs.take(evs.len() as int) =~= evs);
        }
        SpanIndex { spans: rc.spans, source: owned(source) }
    }
}

} // verus!
