//! Character-level helpers: conversion between strings and character
//! vectors, whitespace trimming, and splitting a text into lines.
use vstd::prelude::*;
use vstd::string::*;

verus! {

/// `String::push` appends exactly one character to the end of the string.
pub assume_specification[ String::push ](s: &mut String, ch: char)
    ensures
        final(s)@ == old(s)@.push(ch),
;

/// A half-open range of positions `start..end` inside a text.
#[derive(Clone, Copy, Debug)]
pub struct Span {
    pub start: usize,
    pub end: usize,
}

impl Span {
    /// The range lies inside `text`.
    pub open spec fn within(self, text: Seq<char>) -> bool {
        self.start <= self.end <= text.len()
    }

    /// The characters of `text` that the range covers.
    pub open spec fn of(self, text: Seq<char>) -> Seq<char> {
        text.subrange(self.start as int, self.end as int)
    }
}

/// Characters with the Unicode property `White_Space`.
pub open spec fn is_space(c: char) -> bool {
    let n = c as u32;
    ||| 0x09 <= n <= 0x0d
    ||| n == 0x20
    ||| n == 0x85
    ||| n == 0xa0
    ||| n == 0x1680
    ||| 0x2000 <= n <= 0x200a
    ||| n == 0x2028
    ||| n == 0x2029
    ||| n == 0x202f
    ||| n == 0x205f
    ||| n == 0x3000
}

/// `s` without its leading whitespace.
pub open spec fn trim_start(s: Seq<char>) -> Seq<char>
    decreases s.len(),
{
    if s.len() > 0 && is_space(s[0]) {
        trim_start(s.drop_first())
    } else {
        s
    }
}

/// `s` without its trailing whitespace.
pub open spec fn trim_end(s: Seq<char>) -> Seq<char>
    decreases s.len(),
{
    if s.len() > 0 && is_space(s.last()) {
        trim_end(s.drop_last())
    } else {
        s
    }
}

/// `s` without leading and trailing whitespace.
pub open spec fn trim(s: Seq<char>) -> Seq<char> {
    trim_end(trim_start(s))
}

/// Position of the first line feed in `s`, or `s.len()` if there is none.
pub open spec fn line_end(s: Seq<char>) -> nat
    decreases s.len(),
{
    if s.len() == 0 || s[0] == '\n' {
        0
    } else {
        1 + line_end(s.drop_first())
    }
}

/// `s` without one trailing carriage return.
pub open spec fn strip_cr(s: Seq<char>) -> Seq<char> {
    if s.len() > 0 && s.last() == '\r' {
        s.drop_last()
    } else {
        s
    }
}

/// The lines of a text. A line ends at a line feed, which is not part of
/// it, nor is a carriage return directly before that line feed. Text after
/// the last line feed forms a final line, kept as it is; an empty rest
/// forms none.
pub open spec fn split_lines(s: Seq<char>) -> Seq<Seq<char>>
    decreases s.len(),
{
    if s.len() == 0 {
        Seq::empty()
    } else {
        let n = line_end(s) as int;
        if n >= s.len() {
            seq![s]
        } else {
            seq![strip_cr(s.take(n))] + split_lines(s.skip(n + 1))
        }
    }
}

/// Whether `c` has the Unicode property `White_Space`.
pub fn is_whitespace(c: char) -> (b: bool)
    ensures
        b == is_space(c),
{
    let n: u32 = c as u32;
    (0x09 <= n && n <= 0x0d) || n == 0x20 || n == 0x85 || n == 0xa0 || n == 0x1680 || (0x2000 <= n
        && n <= 0x200a) || n == 0x2028 || n == 0x2029 || n == 0x202f || n == 0x205f || n == 0x3000
}

/// The characters of `s`, in order.
pub fn chars_of(s: &str) -> (out: Vec<char>)
    ensures
        out@ == s@,
{
    broadcast use group_string_axioms;

    let mut out: Vec<char> = Vec::new();
    for c in it: s.chars()
        invariant
            it.seq() == s@,
            out@ == s@.take(it.index() as int),
    {
        out.push(c);
    }
    out
}

/// The string made of the characters that `span` covers.
pub(crate) fn string_of(text: &Vec<char>, span: Span) -> (out: String)
    requires
        span.within(text@),
    ensures
        out@ == span.of(text@),
{
    let mut out = String::new();
    let mut i: usize = span.start;
    while i < span.end
        invariant
            span.start <= i <= span.end <= text.len(),
            out@ == text@.subrange(span.start as int, i as int),
        decreases span.end - i,
    {
        out.push(text[i]);
        i += 1;
    }
    out
}

/// Narrows `span` past its leading whitespace.
pub(crate) fn trim_start_span(text: &Vec<char>, span: Span) -> (out: Span)
    requires
        span.within(text@),
    ensures
        out.within(text@),
        span.start <= out.start,
        out.end == span.end,
        out.of(text@) == trim_start(span.of(text@)),
{
    let mut i: usize = span.start;
    while i < span.end && is_whitespace(text[i])
        invariant
            span.start <= i <= span.end <= text.len(),
            trim_start(text@.subrange(i as int, span.end as int)) == trim_start(span.of(text@)),
        decreases span.end - i,
    {
        proof {
            let cur = text@.subrange(i as int, span.end as int);
            assert(cur.drop_first() =~= text@.subrange(i + 1, span.end as int));
        }
        i += 1;
    }
    Span { start: i, end: span.end }
}

/// Narrows `span` before its trailing whitespace.
pub(crate) fn trim_end_span(text: &Vec<char>, span: Span) -> (out: Span)
    requires
        span.within(text@),
    ensures
        out.within(text@),
        out.start == span.start,
        out.end <= span.end,
        out.of(text@) == trim_end(span.of(text@)),
{
    let mut j: usize = span.end;
    while j > span.start && is_whitespace(text[j - 1])
        invariant
            span.start <= j <= span.end <= text.len(),
            trim_end(text@.subrange(span.start as int, j as int)) == trim_end(span.of(text@)),
        decreases j,
    {
        proof {
            let cur = text@.subrange(span.start as int, j as int);
            assert(cur.drop_last() =~= text@.subrange(span.start as int, j - 1));
        }
        j -= 1;
    }
    Span { start: span.start, end: j }
}

/// Narrows `span` to what is left without leading and trailing whitespace.
pub(crate) fn trim_span(text: &Vec<char>, span: Span) -> (out: Span)
    requires
        span.within(text@),
    ensures
        out.within(text@),
        span.start <= out.start,
        out.end <= span.end,
        out.of(text@) == trim(span.of(text@)),
{
    let head = trim_start_span(text, span);
    trim_end_span(text, head)
}

/// The texts that a sequence of spans covers, in order.
pub open spec fn spans_of(text: Seq<char>, spans: Seq<Span>) -> Seq<Seq<char>> {
    Seq::new(spans.len(), |i: int| spans[i].of(text))
}

/// Every span lies inside `text`.
pub open spec fn spans_within(text: Seq<char>, spans: Seq<Span>) -> bool {
    forall|i: int| 0 <= i < spans.len() ==> (#[trigger] spans[i]).within(text)
}

/// Position of the first line feed at or after `from`, or the text's length.
fn find_line_end(text: &Vec<char>, from: usize) -> (e: usize)
    requires
        from <= text.len(),
    ensures
        from <= e <= text.len(),
        e - from == line_end(text@.skip(from as int)),
{
    let mut e: usize = from;
    while e < text.len() && text[e] != '\n'
        invariant
            from <= e <= text.len(),
            line_end(text@.skip(from as int)) == (e - from) + line_end(text@.skip(e as int)),
        decreases text.len() - e,
    {
        proof {
            assert(text@.skip(e as int).drop_first() =~= text@.skip(e + 1));
        }
        e += 1;
    }
    e
}

/// Splits `text` into lines, each given by the span it covers.
pub(crate) fn line_spans(text: &Vec<char>) -> (spans: Vec<Span>)
    ensures
        spans_within(text@, spans@),
        spans_of(text@, spans@) == split_lines(text@),
{
    let mut spans: Vec<Span> = Vec::new();
    let mut pos: usize = 0;
    proof {
        assert(text@.skip(0) =~= text@);
        assert(spans_of(text@, spans@) + split_lines(text@) =~= split_lines(text@));
    }
    while pos < text.len()
        invariant
            pos <= text.len(),
            spans_within(text@, spans@),
            split_lines(text@) == spans_of(text@, spans@) + split_lines(text@.skip(pos as int)),
        decreases text.len() - pos,
    {
        let e = find_line_end(text, pos);
        let ghost rest = text@.skip(pos as int);
        let ghost before = spans@;
        if e >= text.len() {
            spans.push(Span { start: pos, end: e });
            proof {
                assert(rest =~= text@.subrange(pos as int, e as int));
                assert(split_lines(text@.skip(e as int)) =~= Seq::<Seq<char>>::empty());
                assert(spans_of(text@, spans@) =~= spans_of(text@, before) + seq![rest]);
            }
            pos = e;
        } else {
            let end = if e > pos && text[e - 1] == '\r' {
                e - 1
            } else {
                e
            };
            spans.push(Span { start: pos, end });
            proof {
                let line = rest.take(e - pos);
                assert(line =~= text@.subrange(pos as int, e as int));
                assert(strip_cr(line) =~= text@.subrange(pos as int, end as int));
                assert(rest.skip(e - pos + 1) =~= text@.skip(e + 1));
                assert(spans_of(text@, spans@) =~= spans_of(text@, before) + seq![strip_cr(line)]);
            }
            pos = e + 1;
        }
    }
    proof {
        assert(split_lines(text@.skip(pos as int)) =~= Seq::<Seq<char>>::empty());
    }
    spans
}

/// Whether the text under `span` begins with `prefix`.
pub(crate) fn starts_with(text: &Vec<char>, span: Span, prefix: &Vec<char>) -> (b: bool)
    requires
        span.within(text@),
    ensures
        b == prefix@.is_prefix_of(span.of(text@)),
{
    if prefix.len() > span.end - span.start {
        return false;
    }
    let mut i: usize = 0;
    while i < prefix.len()
        invariant
            span.within(text@),
            i <= prefix.len() <= span.end - span.start,
            forall|k: int| 0 <= k < i ==> prefix@[k] == span.of(text@)[k],
        decreases prefix.len() - i,
    {
        if prefix[i] != text[span.start + i] {
            proof {
                let line = span.of(text@);
                assert(line.subrange(0, prefix@.len() as int)[i as int] != prefix@[i as int]);
            }
            return false;
        }
        i += 1;
    }
    proof {
        assert(prefix@ =~= span.of(text@).subrange(0, prefix@.len() as int));
    }
    true
}

/// Whether the text under `span` ends with `suffix`.
pub(crate) fn ends_with(text: &Vec<char>, span: Span, suffix: &Vec<char>) -> (b: bool)
    requires
        span.within(text@),
    ensures
        b == suffix@.is_suffix_of(span.of(text@)),
{
    if suffix.len() > span.end - span.start {
        return false;
    }
    let base: usize = span.end - suffix.len();
    let mut i: usize = 0;
    while i < suffix.len()
        invariant
            span.within(text@),
            i <= suffix.len() <= span.end - span.start,
            base == span.end - suffix.len(),
            forall|k: int| 0 <= k < i ==> suffix@[k] == text@[base + k],
        decreases suffix.len() - i,
    {
        if suffix[i] != text[base + i] {
            proof {
                let line = span.of(text@);
                let tail = line.subrange(line.len() - suffix@.len(), line.len() as int);
                assert(tail[i as int] != suffix@[i as int]);
            }
            return false;
        }
        i += 1;
    }
    proof {
        let line = span.of(text@);
        assert(suffix@ =~= line.subrange(line.len() - suffix@.len(), line.len() as int));
    }
    true
}

/// Position of the first `c` inside `span`, if there is one.
pub(crate) fn find_char(text: &Vec<char>, span: Span, c: char) -> (found: Option<usize>)
    requires
        span.within(text@),
    ensures
        match found {
            Some(at) => span.start <= at < span.end && text@[at as int] == c && span.of(
                text@,
            ).contains(c) && span.of(text@).index_of_first(c) == Some(at - span.start),
            None => !span.of(text@).contains(c),
        },
{
    let mut i: usize = span.start;
    while i < span.end
        invariant
            span.within(text@),
            span.start <= i <= span.end,
            forall|k: int| span.start <= k < i ==> text@[k] != c,
        decreases span.end - i,
    {
        if text[i] == c {
            proof {
                let line = span.of(text@);
                line.index_of_first_ensures(c);
                assert(line[i - span.start] == c);
            }
            return Some(i);
        }
        i += 1;
    }
    None
}

} // verus!
