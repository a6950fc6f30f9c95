use beacon_core::source_page::{build, tokenize, Class};

fn spans(source: &str) -> Vec<(Class, String)> {
    tokenize(source)
}

fn owned(expected: &[(Class, &str)]) -> Vec<(Class, String)> {
    expected.iter().map(|(c, t)| (*c, t.to_string())).collect()
}

#[test]
fn tags_strings_and_comments_are_classified() {
    let spans = spans("<a href=\"x\">hi</a><!-- note -->");
    assert_eq!(
        spans,
        owned(&[
            (Class::Tag, "<a href="),
            (Class::Str, "\"x\""),
            (Class::Tag, ">"),
            (Class::Plain, "hi"),
            (Class::Tag, "</a>"),
            (Class::Comment, "<!-- note -->"),
        ])
    );
}

#[test]
fn doctype_is_comment_colored_and_unterminated_input_survives() {
    assert_eq!(spans("<!doctype html>"), owned(&[(Class::Comment, "<!doctype html>")]));
    // Unterminated constructs must not panic or lose text.
    assert_eq!(spans("<div class=\"x"), owned(&[(Class::Tag, "<div class="), (Class::Str, "\"x")]));
    assert_eq!(spans("<!-- open"), owned(&[(Class::Comment, "<!-- open")]));
}

#[test]
fn page_escapes_markup_and_numbers_lines() {
    let html = build("https://example.com/", "<b>&amp;</b>\n  indented", true);
    assert!(html.contains("&lt;b&gt;"), "source markup must be escaped");
    assert!(html.contains("&amp;amp;"));
    assert!(html.contains(">1<"));
    assert!(html.contains(">2<"));
    assert!(html.contains("&nbsp;&nbsp;indented"), "indentation survives");
    assert!(!html.contains("<b>&amp;</b>"), "raw source must not leak through");
}

#[test]
fn raw_mode_emits_no_highlight_spans() {
    let html = build("https://example.com/", "<a href=\"x\">hi</a>", false);
    assert!(!html.contains("class=\"t\""));
    assert!(html.contains("&lt;a href="));
}

// Own tests.

#[test]
fn joined_spans_are_the_source() {
    for source in [
        "",
        "plain",
        "<",
        "<>",
        "a<b c='d>e'>f",
        "<!-->x",
        "<!x",
        "<p class=\"a\" id='b'>t</p>\n<!-- c -->\n",
        "\u{e9}<\u{e9} x=\"\u{e9}\">\u{e9}",
    ] {
        let joined: String = spans(source).into_iter().map(|(_, t)| t).collect();
        assert_eq!(joined, source);
        assert!(spans(source).iter().all(|(_, t)| !t.is_empty()));
    }
}

#[test]
fn a_single_quoted_value_and_a_bare_lt_are_read() {
    assert_eq!(
        spans("x<y a='>'>z"),
        owned(&[(Class::Plain, "x"), (Class::Tag, "<y a="), (Class::Str, "'>'"), (Class::Tag, ">"), (Class::Plain, "z")])
    );
    assert_eq!(spans("1 < 2"), owned(&[(Class::Plain, "1 "), (Class::Tag, "< 2")]));
}

#[test]
fn a_whole_page_has_its_exact_shape() {
    let html = build("u", "<i>\n\tx", true);
    let expected = [
        "<!DOCTYPE html><html><head><meta charset=\"utf-8\"><title>Source of u</title><style>",
        "body{margin:0;padding:16px 20px;font-family:monospace;font-size:13px;color:#1c2333;background:#ffffff}",
        ".ln{display:flex;line-height:1.45}",
        ".n{flex:none;width:46px;padding-right:14px;text-align:right;color:#9aa3b2}",
        ".l{flex:1;min-width:0;overflow-wrap:anywhere}",
        ".t{color:#1d5fd1} .s{color:#116329} .c{color:#6b7280;font-style:italic}",
        "</style></head><body>",
        "<div class=\"ln\"><span class=\"n\">1</span><span class=\"l\"><span class=\"t\">&lt;i&gt;</span></span></div>",
        "<div class=\"ln\"><span class=\"n\">2</span><span class=\"l\">&nbsp;&nbsp;&nbsp;&nbsp;x</span></div>",
        "</body></html>",
    ]
    .concat();
    assert_eq!(html, expected);
}

#[test]
fn an_empty_source_is_one_empty_row() {
    let html = build("", "", false);
    assert!(html.contains("<span class=\"n\">1</span><span class=\"l\"></span>"));
    assert!(!html.contains(">2<"));
}

#[test]
fn quotes_in_the_title_are_escaped() {
    let html = build("a\"b<c>", "", true);
    assert!(html.contains("<title>Source of a&quot;b&lt;c&gt;</title>"));
}

#[test]
fn no_span_is_ever_empty() {
    for source in ["<", "<!", "<!--", "<a '", "<a \"\"", "x<>y", "<a b=''>", "<!---->"] {
        assert!(spans(source).iter().all(|(_, t)| !t.is_empty()), "{source:?}");
    }
}
