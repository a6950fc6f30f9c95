//! Pages the browser renders itself and hands to the engine as HTML: the bookmarks list,
//! rebuilt from the live store on every request.

use vstd::prelude::*;
use crate::source_page::source_escaped;
use crate::text::{push_char, to_chars};

verus! {

/// One bookmark: where it points, and what it is called.
#[derive(Debug, Clone, PartialEq, Eq)]
pub struct Bookmark {
    pub url: String,
    pub title: String,
}

/// Minimal HTML escaping for the bookmarks page: `&`, `<`, `>` and `"` as entities.
pub fn html_escape(s: &str) -> (res: String)
    ensures
        res@ == source_escaped(s@),
{
    let chars = to_chars(s);
    let mut out = String::new();
    let mut i: usize = 0;
    while i < chars.len()
        invariant
            chars@ == s@,
            i <= chars.len(),
            out@ == source_escaped(chars@.take(i as int)),
        decreases chars.len() - i,
    {
        let c = chars[i];
        assert(chars@.take(i as int + 1).drop_last() =~= chars@.take(i as int));
        if c == '&' {
            out.append("&amp;");
        } else if c == '<' {
            out.append("&lt;");
        } else if c == '>' {
            out.append("&gt;");
        } else if c == '"' {
            out.append("&quot;");
        } else {
            push_char(&mut out, c);
        }
        i += 1;
    }
    assert(chars@.take(chars.len() as int) =~= chars@);
    out
}

/// One row of the bookmarks table: the title linking to the address, then the address.
pub open spec fn bookmark_row(url: Seq<char>, title: Seq<char>) -> Seq<char> {
    "<tr><td><a href=\""@ + source_escaped(url) + "\">"@ + source_escaped(title)
        + "</a></td><td class=\"muted\"><code>"@ + source_escaped(url) + "</code></td></tr>"@
}

/// The rows for a list of bookmarks, in order.
pub open spec fn bookmark_rows(bookmarks: Seq<Bookmark>) -> Seq<char>
    decreases bookmarks.len(),
{
    if bookmarks.len() == 0 {
        Seq::empty()
    } else {
        bookmark_rows(bookmarks.drop_last()) + bookmark_row(bookmarks.last().url@, bookmarks.last().title@)
    }
}

pub open spec fn bookmarks_head() -> Seq<char> {
    "<!DOCTYPE html><html><head><meta charset=\"utf-8\"><title>Bookmarks</title><style>body{margin:0;padding:32px 40px;font-family:sans-serif;font-size:14px}h1{font-size:24px;margin:0 0 4px 0} .sub{color:#5c6675;margin:0 0 20px 0}table{border-collapse:collapse} td{padding:4px 14px 4px 0}a{color:#1d5fd1} .muted{color:#8a94a6} code{font-family:monospace;font-size:12px}</style></head><body><h1>Bookmarks</h1><p class=\"sub\">The star button in the toolbar adds and removes bookmarks.</p><table>"@
}

pub open spec fn bookmarks_foot() -> Seq<char> {
    "</table></body></html>"@
}

/// The `gosub://bookmarks` page for these bookmarks.
pub open spec fn bookmarks_html(bookmarks: Seq<Bookmark>) -> Seq<char> {
    bookmarks_head() + bookmark_rows(bookmarks) + bookmarks_foot()
}

/// The `gosub://bookmarks` page: every bookmark as a row, its title linking to its
/// address, both escaped.
pub fn bookmarks_page(bookmarks: &[Bookmark]) -> (res: String)
    ensures
        res@ == bookmarks_html(bookmarks@),
{
    let mut page = String::new();
    page.append("<!DOCTYPE html><html><head><meta charset=\"utf-8\"><title>Bookmarks</title><style>body{margin:0;padding:32px 40px;font-family:sans-serif;font-size:14px}h1{font-size:24px;margin:0 0 4px 0} .sub{color:#5c6675;margin:0 0 20px 0}table{border-collapse:collapse} td{padding:4px 14px 4px 0}a{color:#1d5fd1} .muted{color:#8a94a6} code{font-family:monospace;font-size:12px}</style></head><body><h1>Bookmarks</h1><p class=\"sub\">The star button in the toolbar adds and removes bookmarks.</p><table>");
    let ghost head = page@;
    let mut i: usize = 0;
    assert(bookmarks@.take(0) =~= Seq::<Bookmark>::empty());
    while i < bookmarks.len()
        invariant
            i <= bookmarks.len(),
            page@ == head + bookmark_rows(bookmarks@.take(i as int)),
        decreases bookmarks.len() - i,
    {
        assert(bookmarks@.take(i + 1).drop_last() =~= bookmarks@.take(i as int));
        let b = &bookmarks[i];
        let ghost before = page@;
        let url = html_escape(b.url.as_str());
        page.append("<tr><td><a href=\"");
        page.append(url.as_str());
        page.append("\">");
        let title = html_escape(b.title.as_str());
        page.append(title.as_str());
        page.append("</a></td><td class=\"muted\"><code>");
        page.append(url.as_str());
        page.append("</code></td></tr>");
        assert(page@ =~= before + bookmark_row(b.url@, b.title@));
        i += 1;
    }
    assert(bookmarks@.take(bookmarks.len() as int) =~= bookmarks@);
    page.append("</table></body></html>");
    assert(page@ =~= bookmarks_html(bookmarks@));
    page
}

/// The bookmarks a new, non-private profile starts with.
pub fn default_bookmarks() -> (res: Vec<Bookmark>)
    ensures
        res@.len() == 3,
        res@[0].url@ == "https://gosub.io"@ && res@[0].title@ == "Gosub"@,
        res@[1].url@ == "https://github.com/gosub-io"@ && res@[1].title@ == "GitHub"@,
        res@[2].url@ == "https://news.ycombinator.com"@ && res@[2].title@ == "Hacker News"@,
{
    let mut res: Vec<Bookmark> = Vec::new();
    res.push(Bookmark { url: "https://gosub.io".to_string(), title: "Gosub".to_string() });
    res.push(Bookmark { url: "https://github.com/gosub-io".to_string(), title: "GitHub".to_string() });
    res.push(Bookmark { url: "https://news.ycombinator.com".to_string(), title: "Hacker News".to_string() });
    res
}

} // verus!
