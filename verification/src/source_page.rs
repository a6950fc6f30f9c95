//! `view-source:` page generation: escaped, line-numbered, lightly highlighted HTML
//! source, rendered in the tab itself.
//!
//! Lines are emitted as `<div>` rows (not `<pre>`: the engine's `white-space` handling
//! collapses pre text for now) with leading spaces as `&nbsp;` so indentation survives.

use vstd::prelude::*;
use crate::text::{
    decimal, find_char, find_char_from, find_text, find_text_from, lemma_find_char, lemma_find_text, occurs_at,
    push_char, push_decimal, replace_all, replace_str, to_chars,
};

verus! {

/// Token classes the highlighter distinguishes. Deliberately coarse: enough to make
/// markup scannable, not a full grammar.
#[derive(Debug, Clone, Copy, PartialEq, Eq, Structural)]
pub enum Class {
    /// Text content between tags.
    Plain,
    /// A whole tag except its quoted values: `<a href=` ... `>`.
    Tag,
    /// A quoted attribute value inside a tag.
    Str,
    /// `<!-- ... -->`, and `<!doctype ...>`.
    Comment,
}

/// One classified piece of the source.
pub type SpanView = (Class, Seq<char>);

/// A span of this class holding `text`; nothing when `text` is empty.
pub open spec fn span(class: Class, text: Seq<char>) -> Seq<SpanView> {
    if text.len() > 0 {
        seq![(class, text)]
    } else {
        Seq::empty()
    }
}

pub open spec fn comment_open() -> Seq<char> {
    seq!['<', '!', '-', '-']
}

pub open spec fn comment_close() -> Seq<char> {
    seq!['-', '-', '>']
}

/// The spans of `s` read as page text: plain up to the next `<`, then markup.
pub open spec fn text_spans(s: Seq<char>) -> Seq<SpanView>
    decreases s.len(), 1int,
{
    match find_char(s, '<') {
        Some(i) => {
            proof {
                lemma_find_char(s, '<');
            }
            span(Class::Plain, s.take(i)) + markup_spans(s.skip(i))
        },
        None => span(Class::Plain, s),
    }
}

/// The spans of `r`, which starts at a `<`: a comment runs to the end of the first
/// `-->`, a `<!...>` declaration to the first `>`, anything else is a tag.
pub open spec fn markup_spans(r: Seq<char>) -> Seq<SpanView>
    decreases r.len(), 0int,
{
    if r.len() == 0 {
        Seq::empty()
    } else if occurs_at(r, 0, comment_open()) {
        let end = match find_text(r, comment_close()) {
            Some(i) => i + 3,
            None => r.len() as int,
        };
        proof {
            lemma_find_text(r, comment_close());
        }
        span(Class::Comment, r.take(end)) + text_spans(r.skip(end))
    } else if r.len() >= 2 && r[1] == '!' {
        let end = match find_char(r, '>') {
            Some(i) => i + 1,
            None => r.len() as int,
        };
        proof {
            lemma_find_char(r, '>');
        }
        span(Class::Comment, r.take(end)) + text_spans(r.skip(end))
    } else {
        tag_spans(r.drop_first(), seq![r[0]])
    }
}

/// The spans of the inside of a tag: `t` is what is left of the input, `pending` the tag
/// text read so far. A quoted value is a span of its own, up to its closing quote; the
/// tag ends after the first `>` outside quotes, or with the input.
pub open spec fn tag_spans(t: Seq<char>, pending: Seq<char>) -> Seq<SpanView>
    decreases t.len(), 0int,
{
    if t.len() == 0 {
        span(Class::Tag, pending)
    } else if t[0] == '>' {
        span(Class::Tag, pending.push('>')) + text_spans(t.drop_first())
    } else if t[0] == '"' || t[0] == '\'' {
        let value_len = match find_char(t.drop_first(), t[0]) {
            Some(j) => j + 2,
            None => t.len() as int,
        };
        proof {
            lemma_find_char(t.drop_first(), t[0]);
        }
        span(Class::Tag, pending) + span(Class::Str, t.take(value_len)) + tag_spans(
            t.skip(value_len),
            Seq::empty(),
        )
    } else {
        tag_spans(t.drop_first(), pending.push(t[0]))
    }
}

/// The text of a list of spans, joined.
pub open spec fn joined(spans: Seq<SpanView>) -> Seq<char>
    decreases spans.len(),
{
    if spans.len() == 0 {
        Seq::empty()
    } else {
        joined(spans.drop_last()) + spans.last().1
    }
}

proof fn lemma_joined_append(a: Seq<SpanView>, b: Seq<SpanView>)
    ensures
        joined(a + b) == joined(a) + joined(b),
    decreases b.len(),
{
    if b.len() == 0 {
        assert(a + b =~= a);
    } else {
        lemma_joined_append(a, b.drop_last());
        assert((a + b).drop_last() =~= a + b.drop_last());
    }
}

proof fn lemma_joined_span(class: Class, text: Seq<char>)
    ensures
        joined(span(class, text)) == text,
{
    assert(joined(Seq::<SpanView>::empty()) == Seq::<char>::empty());
    if text.len() > 0 {
        assert(seq![(class, text)].drop_last() =~= Seq::<SpanView>::empty());
        assert(Seq::<char>::empty() + text =~= text);
    } else {
        assert(text =~= Seq::<char>::empty());
    }
}

proof fn lemma_text_joined(s: Seq<char>)
    ensures
        joined(text_spans(s)) == s,
    decreases s.len(), 1int,
{
    lemma_find_char(s, '<');
    match find_char(s, '<') {
        Some(i) => {
            lemma_joined_append(span(Class::Plain, s.take(i)), markup_spans(s.skip(i)));
            lemma_joined_span(Class::Plain, s.take(i));
            lemma_markup_joined(s.skip(i));
            assert(s.take(i) + s.skip(i) =~= s);
        },
        None => lemma_joined_span(Class::Plain, s),
    }
}

proof fn lemma_markup_joined(r: Seq<char>)
    ensures
        joined(markup_spans(r)) == r,
    decreases r.len(), 0int,
{
    if r.len() == 0 {
    } else if occurs_at(r, 0, comment_open()) {
        lemma_find_text(r, comment_close());
        let end = match find_text(r, comment_close()) {
            Some(i) => i + 3,
            None => r.len() as int,
        };
        lemma_joined_append(span(Class::Comment, r.take(end)), text_spans(r.skip(end)));
        lemma_joined_span(Class::Comment, r.take(end));
        lemma_text_joined(r.skip(end));
        assert(r.take(end) + r.skip(end) =~= r);
    } else if r.len() >= 2 && r[1] == '!' {
        lemma_find_char(r, '>');
        let end = match find_char(r, '>') {
            Some(i) => i + 1,
            None => r.len() as int,
        };
        lemma_joined_append(span(Class::Comment, r.take(end)), text_spans(r.skip(end)));
        lemma_joined_span(Class::Comment, r.take(end));
        lemma_text_joined(r.skip(end));
        assert(r.take(end) + r.skip(end) =~= r);
    } else {
        lemma_tag_joined(r.drop_first(), seq![r[0]]);
        assert(seq![r[0]] + r.drop_first() =~= r);
    }
}

proof fn lemma_tag_joined(t: Seq<char>, pending: Seq<char>)
    ensures
        joined(tag_spans(t, pending)) == pending + t,
    decreases t.len(), 0int,
{
    if t.len() == 0 {
        lemma_joined_span(Class::Tag, pending);
        assert(pending + t =~= pending);
    } else if t[0] == '>' {
        lemma_joined_append(span(Class::Tag, pending.push('>')), text_spans(t.drop_first()));
        lemma_joined_span(Class::Tag, pending.push('>'));
        lemma_text_joined(t.drop_first());
        assert(pending.push('>') + t.drop_first() =~= pending + t);
    } else if t[0] == '"' || t[0] == '\'' {
        lemma_find_char(t.drop_first(), t[0]);
        let value_len = match find_char(t.drop_first(), t[0]) {
            Some(j) => j + 2,
            None => t.len() as int,
        };
        let a = span(Class::Tag, pending);
        let b = span(Class::Str, t.take(value_len));
        let c = tag_spans(t.skip(value_len), Seq::empty());
        lemma_joined_append(a + b, c);
        lemma_joined_append(a, b);
        lemma_joined_span(Class::Tag, pending);
        lemma_joined_span(Class::Str, t.take(value_len));
        lemma_tag_joined(t.skip(value_len), Seq::empty());
        assert(Seq::<char>::empty() + t.skip(value_len) =~= t.skip(value_len));
        assert(pending + t.take(value_len) + t.skip(value_len) =~= pending + t);
    } else {
        lemma_tag_joined(t.drop_first(), pending.push(t[0]));
        assert(pending.push(t[0]) + t.drop_first() =~= pending + t);
    }
}

/// The highlighter loses no text, however the input ends: joined, its spans are the
/// source.
pub proof fn spans_cover_the_source(source: Seq<char>)
    ensures
        joined(text_spans(source)) == source,
{
    lemma_text_joined(source);
}

/// Whether every span holds some text.
pub open spec fn all_spans_nonempty(spans: Seq<SpanView>) -> bool {
    forall|i: int| 0 <= i < spans.len() ==> (#[trigger] spans[i]).1.len() > 0
}

proof fn lemma_nonempty_append(a: Seq<SpanView>, b: Seq<SpanView>)
    requires
        all_spans_nonempty(a),
        all_spans_nonempty(b),
    ensures
        all_spans_nonempty(a + b),
{
    assert forall|i: int| 0 <= i < (a + b).len() implies (#[trigger] (a + b)[i]).1.len() > 0 by {
        if i < a.len() {
            assert((a + b)[i] == a[i]);
        } else {
            assert((a + b)[i] == b[i - a.len()]);
        }
    }
}

proof fn lemma_text_nonempty(s: Seq<char>)
    ensures
        all_spans_nonempty(text_spans(s)),
    decreases s.len(), 1int,
{
    lemma_find_char(s, '<');
    match find_char(s, '<') {
        Some(i) => {
            lemma_markup_nonempty(s.skip(i));
            lemma_nonempty_append(span(Class::Plain, s.take(i)), markup_spans(s.skip(i)));
        },
        None => {},
    }
}

proof fn lemma_markup_nonempty(r: Seq<char>)
    ensures
        all_spans_nonempty(markup_spans(r)),
    decreases r.len(), 0int,
{
    if r.len() == 0 {
    } else if occurs_at(r, 0, comment_open()) {
        lemma_find_text(r, comment_close());
        let end = match find_text(r, comment_close()) {
            Some(i) => i + 3,
            None => r.len() as int,
        };
        lemma_text_nonempty(r.skip(end));
        lemma_nonempty_append(span(Class::Comment, r.take(end)), text_spans(r.skip(end)));
    } else if r.len() >= 2 && r[1] == '!' {
        lemma_find_char(r, '>');
        let end = match find_char(r, '>') {
            Some(i) => i + 1,
            None => r.len() as int,
        };
        lemma_text_nonempty(r.skip(end));
        lemma_nonempty_append(span(Class::Comment, r.take(end)), text_spans(r.skip(end)));
    } else {
        lemma_tag_nonempty(r.drop_first(), seq![r[0]]);
    }
}

proof fn lemma_tag_nonempty(t: Seq<char>, pending: Seq<char>)
    ensures
        all_spans_nonempty(tag_spans(t, pending)),
    decreases t.len(), 0int,
{
    if t.len() == 0 {
    } else if t[0] == '>' {
        lemma_text_nonempty(t.drop_first());
        lemma_nonempty_append(span(Class::Tag, pending.push('>')), text_spans(t.drop_first()));
    } else if t[0] == '"' || t[0] == '\'' {
        lemma_find_char(t.drop_first(), t[0]);
        let value_len = match find_char(t.drop_first(), t[0]) {
            Some(j) => j + 2,
            None => t.len() as int,
        };
        let a = span(Class::Tag, pending);
        let b = span(Class::Str, t.take(value_len));
        lemma_tag_nonempty(t.skip(value_len), Seq::empty());
        lemma_nonempty_append(a, b);
        lemma_nonempty_append(a + b, tag_spans(t.skip(value_len), Seq::empty()));
    } else {
        lemma_tag_nonempty(t.drop_first(), pending.push(t[0]));
    }
}

/// The highlighter never produces an empty span, however the input ends.
pub proof fn spans_are_never_empty(source: Seq<char>)
    ensures
        all_spans_nonempty(text_spans(source)),
{
    lemma_text_nonempty(source);
}

/// The spans of a tokenizer result, with their text as character sequences.
pub open spec fn spans_view(spans: Seq<(Class, String)>) -> Seq<SpanView> {
    spans.map_values(|p: (Class, String)| (p.0, p.1@))
}

/// The characters `v[from..to]`, as a string.
fn string_of(v: &Vec<char>, from: usize, to: usize) -> (res: String)
    requires
        from <= to <= v.len(),
    ensures
        res@ == v@.subrange(from as int, to as int),
{
    let mut res = String::new();
    let mut i = from;
    while i < to
        invariant
            from <= i <= to <= v.len(),
            res@ == v@.subrange(from as int, i as int),
        decreases to - i,
    {
        push_char(&mut res, v[i]);
        assert(res@ =~= v@.subrange(from as int, i + 1));
        i += 1;
    }
    res
}

/// Push the span of class `class` over `v[from..to]`, unless it is empty.
fn push_span(out: &mut Vec<(Class, String)>, class: Class, v: &Vec<char>, from: usize, to: usize)
    requires
        from <= to <= v.len(),
    ensures
        spans_view(final(out)@) == spans_view(old(out)@) + span(class, v@.subrange(from as int, to as int)),
{
    if to > from {
        out.push((class, string_of(v, from, to)));
        assert(spans_view(out@) =~= spans_view(old(out)@) + span(class, v@.subrange(from as int, to as int)));
    } else {
        assert(spans_view(out@) =~= spans_view(old(out)@) + span(class, v@.subrange(from as int, to as int)));
    }
}

proof fn lemma_nothing_left(v: Seq<char>)
    ensures
        text_spans(v.skip(v.len() as int)) == Seq::<SpanView>::empty(),
{
    let e = v.skip(v.len() as int);
    assert(e.len() == 0);
    lemma_find_char(e, '<');
}

/// Read the tag that starts at `v[at]`, pushing its spans; returns where page text
/// resumes.
fn scan_tag(v: &Vec<char>, at: usize, out: &mut Vec<(Class, String)>) -> (end: usize)
    requires
        at < v.len(),
    ensures
        at < end <= v.len(),
        spans_view(final(out)@) + text_spans(v@.skip(end as int)) == spans_view(old(out)@) + tag_spans(
            v@.skip(at + 1),
            seq![v@[at as int]],
        ),
{
    let ghost goal = spans_view(out@) + tag_spans(v@.skip(at + 1), seq![v@[at as int]]);
    let mut tag_start = at;
    let mut pos = at + 1;
    assert(v@.subrange(at as int, at + 1) =~= seq![v@[at as int]]);
    loop
        invariant
            at <= tag_start < pos || (at < tag_start && tag_start == pos),
            pos <= v.len(),
            spans_view(out@) + tag_spans(v@.skip(pos as int), v@.subrange(tag_start as int, pos as int)) == goal,
            goal == spans_view(old(out)@) + tag_spans(v@.skip(at + 1), seq![v@[at as int]]),
        decreases v.len() - pos,
    {
        let ghost t = v@.skip(pos as int);
        let ghost pending = v@.subrange(tag_start as int, pos as int);
        let ghost before = spans_view(out@);
        if pos == v.len() {
            push_span(out, Class::Tag, v, tag_start, pos);
            proof {
                assert(t.len() == 0);
                lemma_nothing_left(v@);
                assert(spans_view(out@) + text_spans(v@.skip(pos as int)) =~= before + tag_spans(t, pending));
            }
            return pos;
        }
        let c = v[pos];
        assert(t[0] == c);
        assert(t.drop_first() =~= v@.skip(pos + 1));
        if c == '>' {
            push_span(out, Class::Tag, v, tag_start, pos + 1);
            assert(pending.push('>') =~= v@.subrange(tag_start as int, pos + 1));
            assert(spans_view(out@) + text_spans(v@.skip(pos + 1)) =~= before + tag_spans(t, pending));
            return pos + 1;
        } else if c == '"' || c == '\'' {
            push_span(out, Class::Tag, v, tag_start, pos);
            let value_end = match find_char_from(v, pos + 1, c) {
                Some(k) => k + 1,
                None => v.len(),
            };
            let ghost mid = spans_view(out@);
            push_span(out, Class::Str, v, pos, value_end);
            proof {
                let value_len = (value_end - pos) as int;
                lemma_find_char(t.drop_first(), c);
                assert(t.take(value_len) =~= v@.subrange(pos as int, value_end as int));
                assert(t.skip(value_len) =~= v@.skip(value_end as int));
                assert(v@.subrange(value_end as int, value_end as int) =~= Seq::<char>::empty());
                assert(tag_spans(t, pending) == span(Class::Tag, pending) + span(
                    Class::Str,
                    t.take(value_len),
                ) + tag_spans(t.skip(value_len), Seq::empty()));
                assert(spans_view(out@) + tag_spans(v@.skip(value_end as int), Seq::empty()) =~= before
                    + tag_spans(t, pending));
            }
            tag_start = value_end;
            pos = value_end;
        } else {
            assert(pending.push(c) =~= v@.subrange(tag_start as int, pos + 1));
            pos += 1;
        }
    }
}

/// Read the markup that starts at the `<` at `v[at]`, pushing its spans; returns where page
/// text resumes.
fn scan_markup(v: &Vec<char>, at: usize, out: &mut Vec<(Class, String)>) -> (end: usize)
    requires
        at < v.len(),
    ensures
        at < end <= v.len(),
        spans_view(final(out)@) + text_spans(v@.skip(end as int)) == spans_view(old(out)@) + markup_spans(
            v@.skip(at as int),
        ),
{
    let ghost r = v@.skip(at as int);
    let ghost before = spans_view(out@);
    let is_comment = v.len() - at > 3 && v[at] == '<' && v[at + 1] == '!' && v[at + 2] == '-' && v[at + 3] == '-';
    assert(is_comment == occurs_at(r, 0, comment_open())) by {
        if v.len() - at > 3 {
            assert(r.subrange(0, 4) =~= seq![v@[at as int], v@[at + 1], v@[at + 2], v@[at + 3]]);
        }
    }
    if is_comment {
        let mut close: Vec<char> = Vec::new();
        close.push('-');
        close.push('-');
        close.push('>');
        assert(close@ =~= comment_close());
        let end = match find_text_from(v, at, &close) {
            Some(i) => i + 3,
            None => v.len(),
        };
        push_span(out, Class::Comment, v, at, end);
        proof {
            lemma_find_text(r, comment_close());
            let e = (end - at) as int;
            assert(r.take(e) =~= v@.subrange(at as int, end as int));
            assert(r.skip(e) =~= v@.skip(end as int));
        }
        end
    } else if at + 1 < v.len() && v[at + 1] == '!' {
        let end = match crate::text::find_char_from(v, at, '>') {
            Some(i) => i + 1,
            None => v.len(),
        };
        push_span(out, Class::Comment, v, at, end);
        proof {
            lemma_find_char(r, '>');
            let e = (end - at) as int;
            assert(r.take(e) =~= v@.subrange(at as int, end as int));
            assert(r.skip(e) =~= v@.skip(end as int));
        }
        end
    } else {
        assert(r.drop_first() =~= v@.skip(at + 1));
        scan_tag(v, at, out)
    }
}

/// Split `source` into classified spans (spans may hold newlines).
pub fn tokenize(source: &str) -> (res: Vec<(Class, String)>)
    ensures
        spans_view(res@) == text_spans(source@),
{
    let v = to_chars(source);
    let mut out: Vec<(Class, String)> = Vec::new();
    let mut pos: usize = 0;
    assert(v@.skip(0) =~= v@);
    assert(spans_view(out@) + text_spans(v@) =~= text_spans(v@));
    loop
        invariant
            v@ == source@,
            pos <= v.len(),
            spans_view(out@) + text_spans(v@.skip(pos as int)) == text_spans(v@),
        decreases v.len() - pos,
    {
        let ghost rest = v@.skip(pos as int);
        let ghost before = spans_view(out@);
        match find_char_from(&v, pos, '<') {
            None => {
                push_span(&mut out, Class::Plain, &v, pos, v.len());
                assert(rest =~= v@.subrange(pos as int, v.len() as int));
                return out;
            },
            Some(i) => {
                push_span(&mut out, Class::Plain, &v, pos, i);
                proof {
                    lemma_find_char(rest, '<');
                    assert(rest.take(i - pos) =~= v@.subrange(pos as int, i as int));
                    assert(rest.skip(i - pos) =~= v@.skip(i as int));
                }
                let ghost mid = spans_view(out@);
                pos = scan_markup(&v, i, &mut out);
                assert(spans_view(out@) + text_spans(v@.skip(pos as int)) =~= before + text_spans(rest));
            },
        }
    }
}

/// How one character of the source is written into the page.
pub open spec fn source_escape_char(c: char) -> Seq<char> {
    if c == '&' {
        "&amp;"@
    } else if c == '<' {
        "&lt;"@
    } else if c == '>' {
        "&gt;"@
    } else if c == '"' {
        "&quot;"@
    } else {
        seq![c]
    }
}

/// Text with `&`, `<`, `>` and `"` written as entities.
pub open spec fn source_escaped(s: Seq<char>) -> Seq<char>
    decreases s.len(),
{
    if s.len() == 0 {
        Seq::empty()
    } else {
        source_escaped(s.drop_last()) + source_escape_char(s.last())
    }
}

/// Whether `s` is nothing but spaces.
pub open spec fn all_spaces(s: Seq<char>) -> bool {
    forall|i: int| 0 <= i < s.len() ==> s[i] == ' '
}

/// One character of a line: a space with only spaces before it on its line is kept as
/// `&nbsp;` so indentation survives; any other character is escaped.
pub open spec fn line_char(c: char, leading: bool) -> Seq<char> {
    if leading && c == ' ' {
        "&nbsp;"@
    } else {
        source_escape_char(c)
    }
}

/// The markup of a span's text, when the line before it is all spaces exactly if
/// `at_start`.
pub open spec fn span_body(t: Seq<char>, at_start: bool) -> Seq<char>
    decreases t.len(),
{
    if t.len() == 0 {
        Seq::empty()
    } else {
        span_body(t.drop_last(), at_start) + line_char(t.last(), at_start && all_spaces(t.drop_last()))
    }
}

/// A span's markup: plain text as is, the other classes in a styled `<span>`.
pub open spec fn wrapped(class: Class, body: Seq<char>) -> Seq<char> {
    match class {
        Class::Plain => body,
        Class::Tag => "<span class=\"t\">"@ + body + "</span>"@,
        Class::Str => "<span class=\"s\">"@ + body + "</span>"@,
        Class::Comment => "<span class=\"c\">"@ + body + "</span>"@,
    }
}

/// The markup of one source line's spans.
pub open spec fn line_markup(spans: Seq<SpanView>) -> Seq<char>
    decreases spans.len(),
{
    if spans.len() == 0 {
        Seq::empty()
    } else {
        line_markup(spans.drop_last()) + wrapped(
            spans.last().0,
            span_body(spans.last().1, all_spaces(joined(spans.drop_last()))),
        )
    }
}

proof fn lemma_all_spaces_push(s: Seq<char>, c: char)
    ensures
        all_spaces(s.push(c)) == (all_spaces(s) && c == ' '),
{
    if all_spaces(s.push(c)) {
        assert forall|i: int| 0 <= i < s.len() implies s[i] == ' ' by {
            assert(s.push(c)[i] == s[i]);
        }
        assert(s.push(c)[s.len() as int] == c);
    }
}

proof fn lemma_all_spaces_concat(a: Seq<char>, b: Seq<char>)
    ensures
        all_spaces(a + b) == (all_spaces(a) && all_spaces(b)),
{
    if all_spaces(a + b) {
        assert forall|i: int| 0 <= i < a.len() implies a[i] == ' ' by {
            assert((a + b)[i] == a[i]);
        }
        assert forall|i: int| 0 <= i < b.len() implies b[i] == ' ' by {
            assert((a + b)[a.len() + i] == b[i]);
        }
    }
}

/// Write the markup of one span's text, tracking whether the line is still all spaces.
fn emit_span(out: &mut String, text: &str, at_start: bool) -> (still_at_start: bool)
    ensures
        final(out)@ == old(out)@ + span_body(text@, at_start),
        still_at_start == (at_start && all_spaces(text@)),
{
    let t = to_chars(text);
    let mut leading = at_start;
    let mut j: usize = 0;
    assert(t@.take(0) =~= Seq::<char>::empty());
    while j < t.len()
        invariant
            t@ == text@,
            j <= t.len(),
            out@ == old(out)@ + span_body(t@.take(j as int), at_start),
            leading == (at_start && all_spaces(t@.take(j as int))),
        decreases t.len() - j,
    {
        let c = t[j];
        assert(t@.take(j + 1).drop_last() =~= t@.take(j as int));
        assert(t@.take(j + 1) =~= t@.take(j as int).push(c));
        proof {
            lemma_all_spaces_push(t@.take(j as int), c);
        }
        if leading && c == ' ' {
            out.append("&nbsp;");
        } else {
            leading = false;
            if c == '&' {
                out.append("&amp;");
            } else if c == '<' {
                out.append("&lt;");
            } else if c == '>' {
                out.append("&gt;");
            } else if c == '"' {
                out.append("&quot;");
            } else {
                push_char(out, c);
            }
        }
        j += 1;
    }
    assert(t@.take(t.len() as int) =~= t@);
    leading
}

/// Write one source line's spans.
fn emit_line(out: &mut String, spans: &Vec<(Class, String)>)
    ensures
        final(out)@ == old(out)@ + line_markup(spans_view(spans@)),
{
    let ghost sv = spans_view(spans@);
    let mut at_line_start = true;
    let mut k: usize = 0;
    assert(sv.take(0) =~= Seq::<SpanView>::empty());
    while k < spans.len()
        invariant
            sv == spans_view(spans@),
            k <= spans.len(),
            out@ == old(out)@ + line_markup(sv.take(k as int)),
            at_line_start == all_spaces(joined(sv.take(k as int))),
        decreases spans.len() - k,
    {
        let class = spans[k].0;
        let text = spans[k].1.as_str();
        assert(sv.take(k + 1).drop_last() =~= sv.take(k as int));
        assert(sv[k as int] == (class, text@));
        let ghost before = out@;
        match class {
            Class::Plain => {
                at_line_start = emit_span(out, text, at_line_start);
            },
            Class::Tag => {
                out.append("<span class=\"t\">");
                at_line_start = emit_span(out, text, at_line_start);
                out.append("</span>");
            },
            Class::Str => {
                out.append("<span class=\"s\">");
                at_line_start = emit_span(out, text, at_line_start);
                out.append("</span>");
            },
            Class::Comment => {
                out.append("<span class=\"c\">");
                at_line_start = emit_span(out, text, at_line_start);
                out.append("</span>");
            },
        }
        proof {
            lemma_all_spaces_concat(joined(sv.take(k as int)), text@);
        }
        assert(out@ =~= old(out)@ + line_markup(sv.take(k + 1)));
        k += 1;
    }
    assert(sv.take(spans.len() as int) =~= sv);
}

/// The pieces of `t` between newlines, as `str::split('\n')` gives them: always at least
/// one.
pub open spec fn pieces(t: Seq<char>) -> Seq<Seq<char>>
    decreases t.len(),
{
    match find_char(t, '\n') {
        Some(i) => {
            proof {
                lemma_find_char(t, '\n');
            }
            seq![t.take(i)] + pieces(t.skip(i + 1))
        },
        None => seq![t],
    }
}

/// Lines after starting one new line for each of `ps`.
pub open spec fn add_lines(lines: Seq<Seq<SpanView>>, class: Class, ps: Seq<Seq<char>>) -> Seq<Seq<SpanView>>
    decreases ps.len(),
{
    if ps.len() == 0 {
        lines
    } else {
        add_lines(lines.push(span(class, ps[0])), class, ps.drop_first())
    }
}

/// Lines after adding the pieces of one span: the first continues the last line, each
/// further piece starts a new one.
pub open spec fn add_pieces(lines: Seq<Seq<SpanView>>, class: Class, ps: Seq<Seq<char>>) -> Seq<Seq<SpanView>> {
    if ps.len() == 0 {
        lines
    } else {
        add_lines(lines.update(lines.len() - 1, lines.last() + span(class, ps[0])), class, ps.drop_first())
    }
}

/// The source's spans, split on newlines into per-line span lists.
pub open spec fn split_lines(spans: Seq<SpanView>) -> Seq<Seq<SpanView>>
    decreases spans.len(),
{
    if spans.len() == 0 {
        seq![Seq::empty()]
    } else {
        add_pieces(split_lines(spans.drop_last()), spans.last().0, pieces(spans.last().1))
    }
}

proof fn lemma_pieces_nonempty(t: Seq<char>)
    ensures
        pieces(t).len() >= 1,
{
    lemma_find_char(t, '\n');
}

/// A new empty line followed by pieces is the same as starting a line per piece.
proof fn lemma_add_after_newline(lines: Seq<Seq<SpanView>>, class: Class, ps: Seq<Seq<char>>)
    requires
        ps.len() >= 1,
    ensures
        add_pieces(lines.push(Seq::empty()), class, ps) == add_lines(lines, class, ps),
{
    let l2 = lines.push(Seq::empty());
    assert(l2.update(l2.len() - 1, l2.last() + span(class, ps[0])) =~= lines.push(span(class, ps[0])));
}

/// The views of a list of lines.
pub open spec fn lines_view(lines: Seq<Vec<(Class, String)>>) -> Seq<Seq<SpanView>> {
    lines.map_values(|l: Vec<(Class, String)>| spans_view(l@))
}

/// Add one span to the lines, splitting it on newlines: `done` holds the finished lines,
/// `current` the last one.
fn add_span(done: &mut Vec<Vec<(Class, String)>>, current: &mut Vec<(Class, String)>, class: Class, text: &str)
    ensures
        lines_view(final(done)@).push(spans_view(final(current)@)) == add_pieces(
            lines_view(old(done)@).push(spans_view(old(current)@)),
            class,
            pieces(text@),
        ),
{
    let t = to_chars(text);
    let ghost goal = add_pieces(lines_view(done@).push(spans_view(current@)), class, pieces(t@));
    let mut piece_start: usize = 0;
    let mut k: usize = 0;
    assert(t@.skip(0) =~= t@);
    while k < t.len()
        invariant
            t@ == text@,
            piece_start <= k <= t.len(),
            forall|j: int| piece_start <= j < k ==> t@[j] != '\n',
            add_pieces(lines_view(done@).push(spans_view(current@)), class, pieces(t@.skip(piece_start as int)))
                == goal,
            goal == add_pieces(lines_view(old(done)@).push(spans_view(old(current)@)), class, pieces(text@)),
        decreases t.len() - k,
    {
        if t[k] == '\n' {
            let ghost rest = t@.skip(piece_start as int);
            let ghost l0 = lines_view(done@).push(spans_view(current@));
            proof {
                crate::text::lemma_find_char_at(rest, '\n', k - piece_start);
                assert(rest.take(k - piece_start) =~= t@.subrange(piece_start as int, k as int));
                assert(rest.skip(k - piece_start + 1) =~= t@.skip(k + 1));
                lemma_pieces_nonempty(t@.skip(k + 1));
            }
            push_span(current, class, &t, piece_start, k);
            let ghost l1 = lines_view(done@).push(spans_view(current@));
            assert(l1 =~= l0.update(l0.len() - 1, l0.last() + span(class, t@.subrange(piece_start as int, k as int))));
            let ghost done_before = done@;
            let mut finished: Vec<(Class, String)> = Vec::new();
            std::mem::swap(&mut finished, current);
            assert(spans_view(current@) =~= Seq::<SpanView>::empty());
            let ghost fin = finished@;
            done.push(finished);
            proof {
                let p0 = t@.subrange(piece_start as int, k as int);
                let ps = pieces(t@.skip(k + 1));
                assert(pieces(rest) == seq![p0] + ps);
                assert((seq![p0] + ps).drop_first() =~= ps);
                assert((seq![p0] + ps)[0] == p0);
                lemma_add_after_newline(l1, class, ps);
                assert(lines_view(done@) =~= lines_view(done_before).push(spans_view(fin)));
                assert(lines_view(done@).push(spans_view(current@)) =~= l1.push(Seq::empty()));
            }
            piece_start = k + 1;
        }
        k += 1;
    }
    let ghost rest = t@.skip(piece_start as int);
    let ghost l0 = lines_view(done@).push(spans_view(current@));
    proof {
        crate::text::lemma_find_char_none(rest, '\n');
        assert(rest =~= t@.subrange(piece_start as int, t.len() as int));
    }
    push_span(current, class, &t, piece_start, t.len());
    assert(lines_view(done@).push(spans_view(current@)) =~= l0.update(l0.len() - 1, l0.last() + span(class, rest)));
}

/// One numbered row of the page.
pub open spec fn row(number: nat, line: Seq<SpanView>) -> Seq<char> {
    "<div class=\"ln\"><span class=\"n\">"@ + decimal(number) + "</span><span class=\"l\">"@ + line_markup(line)
        + "</span></div>"@
}

/// The rows of the page, numbered from 1.
pub open spec fn rows(lines: Seq<Seq<SpanView>>) -> Seq<char>
    decreases lines.len(),
{
    if lines.len() == 0 {
        Seq::empty()
    } else {
        rows(lines.drop_last()) + row(lines.len() as nat, lines.last())
    }
}

/// The spans a page shows: tabs become four spaces, and without highlighting the whole
/// source is one plain span.
pub open spec fn page_spans(source: Seq<char>, highlighted: bool) -> Seq<SpanView> {
    let s = replace_all(source, seq!['\t'], seq![' ', ' ', ' ', ' ']);
    if highlighted {
        text_spans(s)
    } else {
        seq![(Class::Plain, s)]
    }
}

pub open spec fn page_head() -> Seq<char> {
    "<!DOCTYPE html><html><head><meta charset=\"utf-8\"><title>Source of "@
}

pub open spec fn page_style() -> Seq<char> {
    "</title><style>body{margin:0;padding:16px 20px;font-family:monospace;font-size:13px;color:#1c2333;background:#ffffff}.ln{display:flex;line-height:1.45}.n{flex:none;width:46px;padding-right:14px;text-align:right;color:#9aa3b2}.l{flex:1;min-width:0;overflow-wrap:anywhere}.t{color:#1d5fd1} .s{color:#116329} .c{color:#6b7280;font-style:italic}</style></head><body>"@
}

pub open spec fn page_foot() -> Seq<char> {
    "</body></html>"@
}

/// The `view-source:` page for `source`, fetched from `url`.
pub open spec fn source_page(url: Seq<char>, source: Seq<char>, highlighted: bool) -> Seq<char> {
    page_head() + source_escaped(url) + page_style() + rows(split_lines(page_spans(source, highlighted)))
        + page_foot()
}

fn escape(text: &str) -> (res: String)
    ensures
        res@ == source_escaped(text@),
{
    let chars = to_chars(text);
    let mut out = String::new();
    let mut i: usize = 0;
    while i < chars.len()
        invariant
            chars@ == text@,
            i <= chars.len(),
            out@ == source_escaped(chars@.take(i as int)),
        decreases chars.len() - i,
    {
        let c = chars[i];
        assert(chars@.take(i as int + 1).drop_last() =~= chars@.take(i as int));
        if c == '&' {
            out.append("&amp;");
        } else if c == '<' {
            out.append("&lt;");
        } else if c == '>' {
            out.append("&gt;");
        } else if c == '"' {
            out.append("&quot;");
        } else {
            push_char(&mut out, c);
        }
        i += 1;
    }
    assert(chars@.take(chars.len() as int) =~= chars@);
    out
}

/// The full `view-source:` page for `source`, fetched from `url`. With `highlighted` off
/// it is plain escaped text (the `raw:` address prefix).
pub fn build(url: &str, source: &str, highlighted: bool) -> (res: String)
    ensures
        res@ == source_page(url@, source@, highlighted),
{
    proof {
        reveal_strlit("\t");
        reveal_strlit("    ");
    }
    assert("\t"@ =~= seq!['\t']);
    assert("    "@ =~= seq![' ', ' ', ' ', ' ']);
    let expanded = replace_str(source, "\t", "    ");
    let spans = if highlighted {
        tokenize(expanded.as_str())
    } else {
        let mut whole: Vec<(Class, String)> = Vec::new();
        whole.push((Class::Plain, expanded));
        assert(spans_view(whole@) =~= seq![(Class::Plain, expanded@)]);
        whole
    };
    let ghost sv = spans_view(spans@);

    // Split the classified spans on newlines into per-line span lists.
    let mut done: Vec<Vec<(Class, String)>> = Vec::new();
    let mut current: Vec<(Class, String)> = Vec::new();
    let mut i: usize = 0;
    assert(sv.take(0) =~= Seq::<SpanView>::empty());
    assert(lines_view(done@) =~= Seq::<Seq<SpanView>>::empty());
    assert(spans_view(current@) =~= Seq::<SpanView>::empty());
    assert(lines_view(done@).push(spans_view(current@)) =~= seq![Seq::<SpanView>::empty()]);
    while i < spans.len()
        invariant
            sv == spans_view(spans@),
            i <= spans.len(),
            lines_view(done@).push(spans_view(current@)) == split_lines(sv.take(i as int)),
        decreases spans.len() - i,
    {
        assert(sv.take(i + 1).drop_last() =~= sv.take(i as int));
        add_span(&mut done, &mut current, spans[i].0, spans[i].1.as_str());
        i += 1;
    }
    assert(sv.take(spans.len() as int) =~= sv);
    let ghost done_before = done@;
    let ghost last = current@;
    done.push(current);
    let lines = done;
    assert(lines_view(lines@) =~= lines_view(done_before).push(spans_view(last)));
    let ghost lv = lines_view(lines@);

    let mut body = String::new();
    let mut n: usize = 0;
    assert(lv.take(0) =~= Seq::<Seq<SpanView>>::empty());
    while n < lines.len()
        invariant
            lv == lines_view(lines@),
            n <= lines.len(),
            body@ == rows(lv.take(n as int)),
        decreases lines.len() - n,
    {
        assert(lv.take(n + 1).drop_last() =~= lv.take(n as int));
        let ghost before = body@;
        body.append("<div class=\"ln\"><span class=\"n\">");
        push_decimal(&mut body, (n + 1) as u64);
        body.append("</span><span class=\"l\">");
        emit_line(&mut body, &lines[n]);
        body.append("</span></div>");
        assert(body@ =~= before + row((n + 1) as nat, lv[n as int]));
        n += 1;
    }
    assert(lv.take(lines.len() as int) =~= lv);

    let mut page = String::new();
    page.append("<!DOCTYPE html><html><head><meta charset=\"utf-8\"><title>Source of ");
    let title = escape(url);
    page.append(title.as_str());
    page.append("</title><style>body{margin:0;padding:16px 20px;font-family:monospace;font-size:13px;color:#1c2333;background:#ffffff}.ln{display:flex;line-height:1.45}.n{flex:none;width:46px;padding-right:14px;text-align:right;color:#9aa3b2}.l{flex:1;min-width:0;overflow-wrap:anywhere}.t{color:#1d5fd1} .s{color:#116329} .c{color:#6b7280;font-style:italic}</style></head><body>");
    page.append(body.as_str());
    page.append("</body></html>");
    assert(page@ =~= source_page(url@, source@, highlighted));
    page
}

/// Whether a character would be read as markup.
pub open spec fn is_markup_char(c: char) -> bool {
    c == '<' || c == '>' || c == '"'
}

proof fn lemma_escape_char_clean(c: char, leading: bool)
    ensures
        forall|i: int| 0 <= i < line_char(c, leading).len() ==> !is_markup_char(#[trigger] line_char(c, leading)[i]),
        forall|i: int| 0 <= i < source_escape_char(c).len() ==> !is_markup_char(#[trigger] source_escape_char(c)[i]),
{
    reveal_strlit("&amp;");
    reveal_strlit("&lt;");
    reveal_strlit("&gt;");
    reveal_strlit("&quot;");
    reveal_strlit("&nbsp;");
}

/// The source's text reaches the page escaped: neither an escaped string nor the body of
/// a span holds a character that could open, close or quote markup.
pub proof fn source_text_stays_text(s: Seq<char>, at_start: bool)
    ensures
        forall|i: int| 0 <= i < source_escaped(s).len() ==> !is_markup_char(#[trigger] source_escaped(s)[i]),
        forall|i: int| 0 <= i < span_body(s, at_start).len() ==> !is_markup_char(#[trigger] span_body(s, at_start)[i]),
    decreases s.len(),
{
    if s.len() > 0 {
        source_text_stays_text(s.drop_last(), at_start);
        lemma_escape_char_clean(s.last(), at_start && all_spaces(s.drop_last()));
        let a = source_escaped(s.drop_last());
        let b = source_escape_char(s.last());
        assert forall|i: int| 0 <= i < (a + b).len() implies !is_markup_char(#[trigger] (a + b)[i]) by {
            if i >= a.len() {
                assert((a + b)[i] == b[i - a.len()]);
            }
        }
        let c = span_body(s.drop_last(), at_start);
        let d = line_char(s.last(), at_start && all_spaces(s.drop_last()));
        assert forall|i: int| 0 <= i < (c + d).len() implies !is_markup_char(#[trigger] (c + d)[i]) by {
            if i >= c.len() {
                assert((c + d)[i] == d[i - c.len()]);
            }
        }
    }
}

/// Every span of every line is of class `class`.
pub open spec fn all_of_class(lines: Seq<Seq<SpanView>>, class: Class) -> bool {
    forall|i: int, j: int| 0 <= i < lines.len() && 0 <= j < lines[i].len() ==> (#[trigger] lines[i][j]).0 == class
}

proof fn lemma_add_lines_class(lines: Seq<Seq<SpanView>>, class: Class, ps: Seq<Seq<char>>)
    requires
        all_of_class(lines, class),
    ensures
        all_of_class(add_lines(lines, class, ps), class),
    decreases ps.len(),
{
    if ps.len() > 0 {
        let l2 = lines.push(span(class, ps[0]));
        assert forall|i: int, j: int| 0 <= i < l2.len() && 0 <= j < l2[i].len() implies (#[trigger] l2[i][j]).0 == class by {
            if i < lines.len() {
                assert(l2[i] == lines[i]);
            }
        }
        lemma_add_lines_class(l2, class, ps.drop_first());
    }
}

/// Without highlighting (the `raw:` prefix) a page holds no highlighting: every span of
/// every line is plain text.
pub proof fn raw_pages_are_plain(source: Seq<char>)
    ensures
        all_of_class(split_lines(page_spans(source, false)), Class::Plain),
{
    let spans = page_spans(source, false);
    assert(spans.drop_last() =~= Seq::<SpanView>::empty());
    let l0 = split_lines(spans.drop_last());
    assert(l0 == seq![Seq::<SpanView>::empty()]);
    assert(all_of_class(l0, Class::Plain));
    let ps = pieces(spans.last().1);
    lemma_pieces_nonempty(spans.last().1);
    let l1 = l0.update(l0.len() - 1, l0.last() + span(Class::Plain, ps[0]));
    assert forall|i: int, j: int| 0 <= i < l1.len() && 0 <= j < l1[i].len() implies (#[trigger] l1[i][j]).0 == Class::Plain by {
        assert(l1[i] =~= Seq::<SpanView>::empty() + span(Class::Plain, ps[0]));
    }
    lemma_add_lines_class(l1, Class::Plain, ps.drop_first());
}

} // verus!

verus! {

/// Whether each span's text fits its class: plain text holds no `<`, a comment or
/// declaration starts with `<!`, and a quoted value starts with its quote.
pub open spec fn spans_fit_their_class(spans: Seq<SpanView>) -> bool {
    forall|i: int| 0 <= i < spans.len() ==> {
        let (class, text) = #[trigger] spans[i];
        &&& class == Class::Plain ==> !text.contains('<')
        &&& class == Class::Comment ==> text.len() >= 2 && text[0] == '<' && text[1] == '!'
        &&& class == Class::Str ==> text.len() >= 1 && (text[0] == '"' || text[0] == '\'')
    }
}

proof fn lemma_fit_append(a: Seq<SpanView>, b: Seq<SpanView>)
    requires
        spans_fit_their_class(a),
        spans_fit_their_class(b),
    ensures
        spans_fit_their_class(a + b),
{
    assert forall|i: int| 0 <= i < (a + b).len() implies {
        let (class, text) = #[trigger] (a + b)[i];
        &&& class == Class::Plain ==> !text.contains('<')
        &&& class == Class::Comment ==> text.len() >= 2 && text[0] == '<' && text[1] == '!'
        &&& class == Class::Str ==> text.len() >= 1 && (text[0] == '"' || text[0] == '\'')
    } by {
        if i < a.len() {
            assert((a + b)[i] == a[i]);
        } else {
            assert((a + b)[i] == b[i - a.len()]);
        }
    }
}

proof fn lemma_text_fit(s: Seq<char>)
    ensures
        spans_fit_their_class(text_spans(s)),
    decreases s.len(), 1int,
{
    lemma_find_char(s, '<');
    match find_char(s, '<') {
        Some(i) => {
            let pl = s.take(i);
            assert(!pl.contains('<')) by {
                if pl.contains('<') {
                    let k = choose|k: int| 0 <= k < pl.len() && pl[k] == '<';
                    assert(s[k] == '<');
                }
            }
            assert(spans_fit_their_class(span(Class::Plain, pl)));
            lemma_markup_fit(s.skip(i));
            lemma_fit_append(span(Class::Plain, pl), markup_spans(s.skip(i)));
        },
        None => {
            assert(!s.contains('<')) by {
                if s.contains('<') {
                    let k = choose|k: int| 0 <= k < s.len() && s[k] == '<';
                }
            }
            assert(spans_fit_their_class(span(Class::Plain, s)));
        },
    }
}

proof fn lemma_markup_fit(r: Seq<char>)
    requires
        r.len() > 0 ==> r[0] == '<',
    ensures
        spans_fit_their_class(markup_spans(r)),
    decreases r.len(), 0int,
{
    if r.len() == 0 {
    } else if occurs_at(r, 0, comment_open()) {
        lemma_find_text(r, comment_close());
        let end = match find_text(r, comment_close()) {
            Some(i) => i + 3,
            None => r.len() as int,
        };
        assert(r.subrange(0, 4) == comment_open());
        assert(r[1] == r.subrange(0, 4)[1]);
        let c = r.take(end);
        assert(spans_fit_their_class(span(Class::Comment, c))) by {
            if c.len() > 0 {
                assert(c[0] == r[0] && c[1] == r[1]);
            }
        }
        lemma_text_fit(r.skip(end));
        lemma_fit_append(span(Class::Comment, c), text_spans(r.skip(end)));
    } else if r.len() >= 2 && r[1] == '!' {
        lemma_find_char(r, '>');
        let end = match find_char(r, '>') {
            Some(i) => i + 1,
            None => r.len() as int,
        };
        let c = r.take(end);
        assert(spans_fit_their_class(span(Class::Comment, c))) by {
            assert(end >= 2);
            assert(c[0] == r[0] && c[1] == r[1]);
        }
        lemma_text_fit(r.skip(end));
        lemma_fit_append(span(Class::Comment, c), text_spans(r.skip(end)));
    } else {
        lemma_tag_fit(r.drop_first(), seq![r[0]]);
    }
}

proof fn lemma_tag_fit(t: Seq<char>, pending: Seq<char>)
    ensures
        spans_fit_their_class(tag_spans(t, pending)),
    decreases t.len(), 0int,
{
    if t.len() == 0 {
    } else if t[0] == '>' {
        lemma_text_fit(t.drop_first());
        lemma_fit_append(span(Class::Tag, pending.push('>')), text_spans(t.drop_first()));
    } else if t[0] == '"' || t[0] == '\'' {
        lemma_find_char(t.drop_first(), t[0]);
        let value_len = match find_char(t.drop_first(), t[0]) {
            Some(j) => j + 2,
            None => t.len() as int,
        };
        let a = span(Class::Tag, pending);
        let v = t.take(value_len);
        let b = span(Class::Str, v);
        assert(spans_fit_their_class(b)) by {
            if v.len() > 0 {
                assert(v[0] == t[0]);
            }
        }
        lemma_tag_fit(t.skip(value_len), Seq::empty());
        lemma_fit_append(a, b);
        lemma_fit_append(a + b, tag_spans(t.skip(value_len), Seq::empty()));
    } else {
        lemma_tag_fit(t.drop_first(), pending.push(t[0]));
    }
}

/// The highlighter classes each piece by what it is: plain text never holds a `<`, a
/// comment or declaration starts with `<!`, and a quoted value starts with its quote.
pub proof fn spans_are_classified_by_their_text(source: Seq<char>)
    ensures
        spans_fit_their_class(text_spans(source)),
{
    lemma_text_fit(source);
}

} // verus!
