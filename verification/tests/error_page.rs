use beacon_core::error_page::{build, is_cancellation};

#[test]
fn the_url_and_the_error_both_reach_the_page() {
    let page = build("https://example.test/x", "no route to host");
    assert!(page.contains("https://example.test/x"));
    assert!(page.contains("no route to host"));
    assert!(!page.contains("{{URL}}"));
    assert!(!page.contains("{{ERROR}}"));
}

#[test]
fn markup_in_either_string_stays_text() {
    // A page that puts an unescaped error into the DOM would let a crafted hostname
    // write the error page.
    let page = build("https://example.test/<script>", "<img onerror=x>");
    assert!(!page.contains("<script>"));
    assert!(!page.contains("<img onerror=x>"));
    assert!(page.contains("&lt;script&gt;"));
}

#[test]
fn stopping_a_load_is_not_an_error() {
    assert!(is_cancellation("Request cancelled"));
    assert!(!is_cancellation("connection refused"));
}

#[test]
fn cancellation_is_recognised_in_any_case() {
    assert!(is_cancellation("Request CANCELLED"));
    assert!(is_cancellation("cancel"));
    assert!(!is_cancellation(""));
}

#[test]
fn ampersands_are_escaped_first() {
    let page = build("https://a.test/?a=1&b=<2>", "x & y");
    assert!(page.contains("https://a.test/?a=1&amp;b=&lt;2&gt;"));
    assert!(page.contains("x &amp; y"));
}

#[test]
fn an_address_spelling_a_placeholder_stays_text() {
    // Each slot is filled once, so an address that spells the error placeholder reaches
    // the page as it is, and the error appears exactly once.
    let page = build("{{ERROR}}", "boom");
    assert_eq!(page.matches("boom").count(), 1);
    assert_eq!(page.matches("{{ERROR}}").count(), 1);
    let page = build("a", "{{URL}}");
    assert_eq!(page.matches("{{URL}}").count(), 1);
    assert!(page.contains(">a</span>"));
}
