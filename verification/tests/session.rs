use beacon_core::session::{parse, serialize, SessionTab};

#[test]
fn roundtrip_preserves_order_and_flags() {
    let tabs = vec![
        SessionTab {
            url: "https://a.example/".into(),
            pinned: true,
            active: false,
        },
        SessionTab {
            url: "https://b.example/x?y=1".into(),
            pinned: false,
            active: true,
        },
        SessionTab {
            url: "gosub://home".into(),
            pinned: false,
            active: false,
        },
    ];
    assert_eq!(parse(&serialize(&tabs)), tabs);
}

#[test]
fn parse_skips_comments_and_blank_lines() {
    let tabs = parse("# header\n\n*!https://a.example/\n\n# trailing\n");
    assert_eq!(
        tabs,
        vec![SessionTab {
            url: "https://a.example/".into(),
            pinned: true,
            active: true,
        }]
    );
}

#[test]
fn empty_content_is_an_empty_session() {
    assert!(parse("").is_empty());
    assert!(parse("# only a comment\n").is_empty());
}

#[test]
fn the_file_is_a_header_and_one_line_per_tab() {
    let tabs = vec![
        SessionTab { url: "https://a.example/".into(), pinned: true, active: true },
        SessionTab { url: "https://b.example/".into(), pinned: false, active: false },
    ];
    assert_eq!(serialize(&tabs), "# gosub-beacon session v1\n*!https://a.example/\nhttps://b.example/\n");
    assert_eq!(serialize(&[]), "# gosub-beacon session v1\n");
}

#[test]
fn carriage_returns_and_bare_markers_are_tolerated() {
    let tabs = parse("!https://a.example/\r\n*\n!\n*!\nhttps://b.example/");
    assert_eq!(
        tabs,
        vec![
            SessionTab { url: "https://a.example/".into(), pinned: true, active: false },
            SessionTab { url: "https://b.example/".into(), pinned: false, active: false },
        ]
    );
}
