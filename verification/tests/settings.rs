use beacon_core::settings::{parse_like, SettingValue};

#[test]
fn text_becomes_the_type_the_schema_asked_for() {
    assert_eq!(parse_like(&SettingValue::UInt(0), "8080"), SettingValue::UInt(8080));
    // A string setting whose text happens to read like a boolean stays a string.
    assert_eq!(parse_like(&SettingValue::String(String::new()), "true"), SettingValue::String("true".into()));
    assert_eq!(parse_like(&SettingValue::Bool(false), "yes"), SettingValue::Bool(true));
    assert_eq!(
        parse_like(&SettingValue::List(vec![]), "left, right"),
        SettingValue::List(vec!["left".into(), "right".into()])
    );
}

#[test]
fn a_number_that_will_not_parse_does_not_become_a_string() {
    assert_eq!(parse_like(&SettingValue::SInt(0), "not a number"), SettingValue::SInt(0));
}

#[test]
fn the_text_is_trimmed_first() {
    assert_eq!(parse_like(&SettingValue::String("x".into()), "  spaced out \t\n"), SettingValue::String("spaced out".into()));
    assert_eq!(parse_like(&SettingValue::UInt(7), " 42 "), SettingValue::UInt(42));
    assert_eq!(parse_like(&SettingValue::String(String::new()), "\u{3000}wide\u{a0}"), SettingValue::String("wide".into()));
    assert_eq!(parse_like(&SettingValue::String(String::new()), "   "), SettingValue::String(String::new()));
}

#[test]
fn booleans_take_four_words_in_any_case() {
    for word in ["true", "TRUE", "1", "Yes", "on", " On "] {
        assert_eq!(parse_like(&SettingValue::Bool(false), word), SettingValue::Bool(true), "{word}");
    }
    for word in ["false", "0", "no", "off", "", "y", "truthy"] {
        assert_eq!(parse_like(&SettingValue::Bool(true), word), SettingValue::Bool(false), "{word}");
    }
}

#[test]
fn unsigned_numbers_follow_the_standard_parser() {
    let u = |t: &str| parse_like(&SettingValue::UInt(1), t);
    assert_eq!(u("+5"), SettingValue::UInt(5));
    assert_eq!(u("-5"), SettingValue::UInt(0));
    assert_eq!(u("+"), SettingValue::UInt(0));
    assert_eq!(u(""), SettingValue::UInt(0));
    assert_eq!(u("007"), SettingValue::UInt(7));
    assert_eq!(u("18446744073709551615"), SettingValue::UInt(u64::MAX));
    assert_eq!(u("18446744073709551616"), SettingValue::UInt(0));
    assert_eq!(u("99999999999999999999999999999999999999999"), SettingValue::UInt(0));
    assert_eq!(u("12a"), SettingValue::UInt(0));
    assert_eq!(u("1 2"), SettingValue::UInt(0));
}

#[test]
fn signed_numbers_follow_the_standard_parser() {
    let s = |t: &str| parse_like(&SettingValue::SInt(1), t);
    assert_eq!(s("-1"), SettingValue::SInt(-1));
    assert_eq!(s("+9999"), SettingValue::SInt(9999));
    assert_eq!(s("-9223372036854775808"), SettingValue::SInt(i64::MIN));
    assert_eq!(s("9223372036854775807"), SettingValue::SInt(i64::MAX));
    assert_eq!(s("9223372036854775808"), SettingValue::SInt(0));
    assert_eq!(s("-9223372036854775809"), SettingValue::SInt(0));
    assert_eq!(s("-"), SettingValue::SInt(0));
    assert_eq!(s("--1"), SettingValue::SInt(0));
    assert_eq!(s("-0"), SettingValue::SInt(0));
}

#[test]
fn list_items_are_trimmed_and_empties_dropped() {
    let l = |t: &str| parse_like(&SettingValue::List(vec!["old".into()]), t);
    assert_eq!(l(""), SettingValue::List(vec![]));
    assert_eq!(l(" , ,"), SettingValue::List(vec![]));
    assert_eq!(l("a,,b , c"), SettingValue::List(vec!["a".into(), "b".into(), "c".into()]));
    assert_eq!(l("one"), SettingValue::List(vec!["one".into()]));
    assert_eq!(l("x y, z"), SettingValue::List(vec!["x y".into(), "z".into()]));
}
