use beacon_core::pages::{bookmarks_page, default_bookmarks, html_escape, Bookmark};

#[test]
fn html_escape_writes_the_four_entities() {
    assert_eq!(html_escape("a & b <c> \"d\" 'e'"), "a &amp; b &lt;c&gt; &quot;d&quot; 'e'");
    assert_eq!(html_escape(""), "");
}

#[test]
fn the_bookmarks_page_lists_every_bookmark_escaped() {
    let page = bookmarks_page(&[
        Bookmark { url: "https://a.test/?x=1&y=2".into(), title: "A <b>".into() },
        Bookmark { url: "https://b.test/".into(), title: "B".into() },
    ]);
    assert!(page.starts_with("<!DOCTYPE html><html><head><meta charset=\"utf-8\"><title>Bookmarks</title>"));
    assert!(page.contains(
        "<tr><td><a href=\"https://a.test/?x=1&amp;y=2\">A &lt;b&gt;</a></td><td class=\"muted\"><code>https://a.test/?x=1&amp;y=2</code></td></tr><tr><td><a href=\"https://b.test/\">B</a>"
    ));
    assert!(page.ends_with("</table></body></html>"));
    assert!(!page.contains("<b>"));
}

#[test]
fn no_bookmarks_is_an_empty_table() {
    let page = bookmarks_page(&[]);
    assert!(page.contains("<table></table>"));
}

#[test]
fn a_new_profile_has_three_bookmarks() {
    let seeds = default_bookmarks();
    let urls: Vec<&str> = seeds.iter().map(|b| b.url.as_str()).collect();
    assert_eq!(urls, vec!["https://gosub.io", "https://github.com/gosub-io", "https://news.ycombinator.com"]);
    assert_eq!(seeds[2].title, "Hacker News");
}
