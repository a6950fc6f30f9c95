//! The page a tab shows when its navigation failed: rendered by the engine like any other
//! page, so the tab keeps its history, reload button and address bar.

use vstd::prelude::*;
use crate::text::{contains_text, lowercase, occurs_at, push_char, to_chars, to_lowercase};

verus! {

/// How one character of untrusted text is written into the page.
pub open spec fn escape_char(c: char) -> Seq<char> {
    if c == '&' {
        "&amp;"@
    } else if c == '<' {
        "&lt;"@
    } else if c == '>' {
        "&gt;"@
    } else {
        seq![c]
    }
}

/// Untrusted text with `&`, `<` and `>` written as entities.
pub open spec fn escaped(s: Seq<char>) -> Seq<char>
    decreases s.len(),
{
    if s.len() == 0 {
        Seq::empty()
    } else {
        escaped(s.drop_last()) + escape_char(s.last())
    }
}

/// Escape the two strings that go into the template. Neither is trusted: the URL is
/// whatever was typed, and the error is whatever the network stack said.
fn escape(text: &str) -> (res: String)
    ensures
        res@ == escaped(text@),
{
    let chars = to_chars(text);
    let mut out = String::new();
    let mut i: usize = 0;
    while i < chars.len()
        invariant
            chars@ == text@,
            i <= chars.len(),
            out@ == escaped(chars@.take(i as int)),
        decreases chars.len() - i,
    {
        let c = chars[i];
        assert(chars@.take(i as int + 1).drop_last() =~= chars@.take(i as int));
        if c == '&' {
            out.append("&amp;");
        } else if c == '<' {
            out.append("&lt;");
        } else if c == '>' {
            out.append("&gt;");
        } else {
            push_char(&mut out, c);
        }
        i += 1;
    }
    assert(chars@.take(chars.len() as int) =~= chars@);
    out
}

/// The error page's markup, in three parts around its two slots: `{{URL}}`, where the
/// address goes, and `{{ERROR}}`, where the error goes. This is the part before `{{URL}}`.
pub open spec fn template_head() -> Seq<char> {
    "<!DOCTYPE html><html><head><meta charset=\"utf-8\"><title>Problem loading page</title><style>body{margin:0;padding:48px 56px;font-family:sans-serif;font-size:15px;color:#1c2333;background:#ffffff} h1{font-size:24px;margin:0 0 12px 0} .url{font-family:monospace;color:#1d5fd1;overflow-wrap:anywhere} .error{margin-top:16px;padding:12px 16px;background:#f4f5f7;border-radius:6px;font-family:monospace;font-size:13px;color:#5c6675;overflow-wrap:anywhere}</style></head><body><h1>This page could not be loaded</h1><p>Beacon could not reach <span class=\"url\">"@
}

/// The markup between the `{{URL}}` slot and the `{{ERROR}}` slot.
pub open spec fn template_middle() -> Seq<char> {
    "</span>.</p><div class=\"error\">"@
}

/// The markup after the `{{ERROR}}` slot.
pub open spec fn template_tail() -> Seq<char> {
    "</div><p>Check the address, or try reloading the page.</p></body></html>"@
}

/// The page with each slot of the template filled once, left to right: the escaped
/// address in the first, the escaped error in the second.
pub open spec fn filled_page(url: Seq<char>, error: Seq<char>) -> Seq<char> {
    template_head() + escaped(url) + template_middle() + escaped(error) + template_tail()
}

fn head_markup() -> (res: &'static str)
    ensures
        res@ == template_head(),
{
    "<!DOCTYPE html><html><head><meta charset=\"utf-8\"><title>Problem loading page</title><style>body{margin:0;padding:48px 56px;font-family:sans-serif;font-size:15px;color:#1c2333;background:#ffffff} h1{font-size:24px;margin:0 0 12px 0} .url{font-family:monospace;color:#1d5fd1;overflow-wrap:anywhere} .error{margin-top:16px;padding:12px 16px;background:#f4f5f7;border-radius:6px;font-family:monospace;font-size:13px;color:#5c6675;overflow-wrap:anywhere}</style></head><body><h1>This page could not be loaded</h1><p>Beacon could not reach <span class=\"url\">"
}

fn middle_markup() -> (res: &'static str)
    ensures
        res@ == template_middle(),
{
    "</span>.</p><div class=\"error\">"
}

fn tail_markup() -> (res: &'static str)
    ensures
        res@ == template_tail(),
{
    "</div><p>Check the address, or try reloading the page.</p></body></html>"
}

/// The error page for a failed navigation to `url`: the template filled in one pass, so
/// each string lands in its own slot whatever text it holds, and both reach the page.
pub fn build(url: &str, error: &str) -> (res: String)
    ensures
        res@ == filled_page(url@, error@),
        contains_text(res@, escaped(url@)),
        contains_text(res@, escaped(error@)),
{
    let mut page = String::new();
    page.append(head_markup());
    let u = escape(url);
    page.append(u.as_str());
    page.append(middle_markup());
    let e = escape(error);
    page.append(e.as_str());
    page.append(tail_markup());
    proof {
        let h = template_head();
        let m = template_middle();
        let t = template_tail();
        let eu = escaped(url@);
        let ee = escaped(error@);
        assert(page@ =~= h + eu + m + ee + t);
        assert(page@.subrange(h.len() as int, h.len() + eu.len() as int) =~= eu);
        assert(occurs_at(page@, h.len() as int, eu));
        let k: int = (h.len() + eu.len() + m.len()) as int;
        assert(page@.subrange(k, k + ee.len() as int) =~= ee);
        assert(occurs_at(page@, k, ee));
    }
    page
}

/// Whether a failure is worth showing a page for: pressing Stop reaches the shell as a
/// failed navigation, and replacing a page someone just stopped loading with an error is
/// the opposite of what they asked for. A failure counts as a cancellation when its
/// message, lower-cased, mentions "cancel".
pub fn is_cancellation(error: &str) -> (res: bool)
    ensures
        res == contains_text(lowercase(error@), "cancel"@),
{
    let lower = to_lowercase(error);
    crate::text::contains_str(lower.as_str(), "cancel")
}

/// Escaped text carries no markup: no `<` or `>` survives, so neither the address nor
/// the error can write tags into the page.
pub proof fn escaped_text_has_no_markup(s: Seq<char>)
    ensures
        !escaped(s).contains('<'),
        !escaped(s).contains('>'),
    decreases s.len(),
{
    reveal_strlit("&amp;");
    reveal_strlit("&lt;");
    reveal_strlit("&gt;");
    if s.len() > 0 {
        escaped_text_has_no_markup(s.drop_last());
        let a = escaped(s.drop_last());
        let b = escape_char(s.last());
        assert(!b.contains('<') && !b.contains('>'));
        assert forall|c: char| c == '<' || c == '>' implies !(a + b).contains(c) by {
            if (a + b).contains(c) {
                let k = choose|k: int| 0 <= k < (a + b).len() && (a + b)[k] == c;
                if k < a.len() {
                    assert(a[k] == c);
                } else {
                    assert(b[k - a.len()] == c);
                }
            }
        }
    }
}

} // verus!
