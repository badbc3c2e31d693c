use microservicedb::json::{Json, Numeral};
use microservicedb::object::{same_json, set_entry};
use microservicedb::path::{get_nested_value, set_nested_value, unset_nested_value};
use microservicedb::text::{
    cache_key_segment, order_texts, parse_decimal, sort_texts, split, to_ascii_lower, trim, truncate_string, white,
    write_decimal,
};
use microservicedb::value::{
    compare_values, overlapping_id, parse_object_id_text, value_as_object_id_text, value_eq,
};
use microservicedb::wire::{from_text, json_to_string, to_text};

fn j(s: &str) -> Json {
    from_text(s).expect("json")
}

fn path(doc: &str, path: &str) -> Option<String> {
    get_nested_value(&j(doc), path).map(|v| to_text(&v))
}

fn set(doc: &str, path: &str, value: &str) -> String {
    let mut d = j(doc);
    set_nested_value(&mut d, path, j(value));
    to_text(&d)
}

fn unset(doc: &str, path: &str) -> String {
    let mut d = j(doc);
    unset_nested_value(&mut d, path);
    to_text(&d)
}

#[test]
fn json_text_round_trips() {
    for s in [
        "null", "true", "false", "0", "-1", "18446744073709551615", "-9223372036854775808", "1.5", "\"a\\\"b\"",
        "[1,[2],{\"a\":null}]", "{\"b\":1,\"a\":2}", "{}", "[]", "\"\\u0007\"", "\"ñ€😀\"",
    ] {
        let v = j(s);
        let back = from_text(&to_text(&v)).expect("json");
        assert!(same_json(&v, &back), "{s}");
    }
}

#[test]
fn json_text_is_compact_and_keeps_the_order_of_keys() {
    assert_eq!(to_text(&j(" { \"b\" : [ 1 , 2.50 ] , \"a\" : \"x\" } ")), "{\"b\":[1,2.5],\"a\":\"x\"}");
}

#[test]
fn the_last_value_of_a_repeated_key_counts() {
    assert_eq!(to_text(&j("{\"a\":1,\"b\":2,\"a\":3}")), "{\"a\":3,\"b\":2}");
}

#[test]
fn what_is_not_json_is_refused() {
    for s in ["", "{", "nul", "{\"a\":}", "[1,]", "1 2", "NaN", "'a'"] {
        assert!(from_text(s).is_none(), "{s}");
    }
}

#[test]
fn numbers_are_read_by_kind() {
    assert!(matches!(j("5"), Json::Number(Numeral::PosInt(5))));
    assert!(matches!(j("-5"), Json::Number(Numeral::NegInt(-5))));
    assert!(matches!(j("5.0"), Json::Number(Numeral::Float(b)) if b == 5.0f64.to_bits()));
    assert!(matches!(j("1e2"), Json::Number(Numeral::Float(b)) if b == 100.0f64.to_bits()));
    assert!(matches!(j("18446744073709551616"), Json::Number(Numeral::Float(b)) if b == 18446744073709551616.0f64.to_bits()));
}

#[test]
fn a_text_stands_for_itself() {
    assert_eq!(json_to_string(&j("\"a b\"")), "a b");
    assert_eq!(json_to_string(&j("[1,\"a\"]")), "[1,\"a\"]");
    assert_eq!(json_to_string(&j("null")), "null");
}

#[test]
fn entries_are_set_in_place() {
    let mut o = vec![("a".to_string(), j("1")), ("b".to_string(), j("2"))];
    set_entry(&mut o, "a", j("3"));
    set_entry(&mut o, "c", j("4"));
    assert_eq!(to_text(&Json::Object(o)), "{\"a\":3,\"b\":2,\"c\":4}");
}

#[test]
fn paths_lead_through_objects_and_arrays() {
    let doc = "{\"a\":{\"b\":[{\"c\":1},{\"c\":2},{\"d\":3}]},\"x\":5}";
    assert_eq!(path(doc, "x").as_deref(), Some("5"));
    assert_eq!(path(doc, "a.b.0.c").as_deref(), Some("1"));
    assert_eq!(path(doc, "a.b.c").as_deref(), Some("[1,2]"));
    assert_eq!(path(doc, "a.b.9"), None);
    assert_eq!(path(doc, "x.y"), None);
    assert_eq!(path(doc, "nope"), None);
}

#[test]
fn setting_a_path_makes_what_is_missing() {
    assert_eq!(set("{}", "a.b.c", "1"), "{\"a\":{\"b\":{\"c\":1}}}");
    assert_eq!(set("{\"a\":[1,2]}", "a.1", "9"), "{\"a\":[1,9]}");
    assert_eq!(set("{\"a\":[1]}", "a.3", "9"), "{\"a\":[1,null,null,9]}");
}

#[test]
fn what_was_set_is_read_back() {
    let mut d = j("{\"a\":{\"b\":1}}");
    set_nested_value(&mut d, "a.c.d", j("[7]"));
    assert_eq!(get_nested_value(&d, "a.c.d").map(|v| to_text(&v)).as_deref(), Some("[7]"));
    assert_eq!(get_nested_value(&d, "a.b").map(|v| to_text(&v)).as_deref(), Some("1"));
}

#[test]
fn what_was_unset_is_gone() {
    assert_eq!(unset("{\"a\":{\"b\":1,\"c\":2}}", "a.b"), "{\"a\":{\"c\":2}}");
    assert_eq!(unset("{\"a\":1}", "b.c"), "{\"a\":1}");
    let mut d = j("{\"a\":{\"b\":1}}");
    unset_nested_value(&mut d, "a.b");
    assert!(get_nested_value(&d, "a.b").is_none());
}

#[test]
fn object_ids_are_recognised() {
    let hex = "507f1f77bcf86cd799439011";
    assert_eq!(parse_object_id_text(hex).as_deref(), Some(hex));
    assert_eq!(parse_object_id_text("507F1F77BCF86CD799439011").as_deref(), Some(hex));
    assert_eq!(parse_object_id_text("ObjectId(\"507f1f77bcf86cd799439011\")").as_deref(), Some(hex));
    assert_eq!(parse_object_id_text("507f1f77bcf86cd79943901"), None);
    assert_eq!(parse_object_id_text("zzzf1f77bcf86cd799439011"), None);
    assert_eq!(value_as_object_id_text(&j("{\"$oid\":\"507f1f77bcf86cd799439011\"}")).as_deref(), Some(hex));
    assert_eq!(value_as_object_id_text(&j("5")), None);
    assert!(overlapping_id("ObjectId(\")"));
    assert_eq!(value_as_object_id_text(&j("\"ObjectId(\\\")\"")), None);
}

#[test]
fn ids_are_equal_in_every_form() {
    let a = j("\"507f1f77bcf86cd799439011\"");
    let b = j("{\"$oid\":\"507F1F77BCF86CD799439011\"}");
    assert!(value_eq(Some(&a), Some(&b)));
    assert!(value_eq(None, None));
    assert!(!value_eq(Some(&a), None));
    assert!(!value_eq(Some(&j("1")), Some(&j("1.0"))));
    assert!(value_eq(Some(&j("{\"a\":1,\"b\":2}")), Some(&j("{\"b\":2,\"a\":1}"))));
}

#[test]
fn values_compare_by_size_or_text() {
    assert_eq!(compare_values(Some(&j("2")), Some(&j("10"))), -1);
    assert_eq!(compare_values(Some(&j("2.5")), Some(&j("2"))), 1);
    assert_eq!(compare_values(Some(&j("1")), Some(&j("1.0"))), 0);
    assert_eq!(compare_values(Some(&j("\"b\"")), Some(&j("\"a\""))), 1);
    assert_eq!(compare_values(Some(&j("\"10\"")), Some(&j("\"9\""))), -1);
    assert_eq!(compare_values(Some(&j("9007199254740993")), Some(&j("9007199254740992"))), 0);
}

#[test]
fn order_of_values_is_antisymmetric() {
    let all = ["null", "true", "1", "-3", "2.5", "\"a\"", "\"b\"", "[1]", "{\"a\":1}"];
    for a in all {
        for b in all {
            assert_eq!(compare_values(Some(&j(a)), Some(&j(b))), -compare_values(Some(&j(b)), Some(&j(a))));
        }
    }
}

#[test]
fn white_space_is_that_of_unicode() {
    for n in 0..0x11_0000u32 {
        if let Some(c) = char::from_u32(n) {
            assert_eq!(white(c), c.is_whitespace(), "{n:x}");
        }
    }
    assert_eq!(trim("\u{3000} a b\t\n"), "a b");
}

#[test]
fn texts_are_split_joined_and_cut() {
    assert_eq!(split("a.b..c", '.'), vec!["a", "b", "", "c"]);
    assert_eq!(split("", '.'), vec![""]);
    assert_eq!(truncate_string("hello".to_string(), 3), "hel...[truncated]");
    assert_eq!(truncate_string("hello".to_string(), 5), "hello");
    assert_eq!(truncate_string("ñandú".to_string(), 2), "ña...[truncated]");
    assert_eq!(truncate_string(String::new(), 0), "");
}

#[test]
fn decimals_are_read_as_integers_are() {
    for s in ["0", "7", "+7", "007", "65535", "65536", "", "+", "-1", " 1", "1 ", "1_0", "0x1", "٣"] {
        assert_eq!(parse_decimal(s, 65535), s.parse::<u16>().ok().map(u64::from), "{s}");
    }
    for s in ["18446744073709551615", "18446744073709551616", "99999999999999999999"] {
        assert_eq!(parse_decimal(s, u64::MAX), s.parse::<u64>().ok(), "{s}");
    }
    assert_eq!(write_decimal(18446744073709551615), "18446744073709551615");
    assert_eq!(parse_decimal(&write_decimal(1234567890), u64::MAX), Some(1234567890));
}

#[test]
fn segments_of_names_are_hexadecimal() {
    assert_eq!(cache_key_segment("a:b"), "613a62");
    assert_eq!(cache_key_segment("ñ"), "c3b1");
    assert_eq!(cache_key_segment(""), "");
}

#[test]
fn texts_are_ordered_as_strings_are() {
    let mut v: Vec<String> = ["b", "", "a", "ñ", "z", "aa", "B", "😀", "\u{ffff}"].iter().map(|s| s.to_string()).collect();
    let sorted = sort_texts(v.clone());
    v.sort();
    assert_eq!(sorted, v);
    assert_eq!(order_texts("a", "b"), -1);
    assert_eq!(order_texts("a", "a"), 0);
    assert_eq!(order_texts("\u{ffff}", "😀"), -1);
}

#[test]
fn only_ascii_letters_are_lowered() {
    assert_eq!(to_ascii_lower("AbÑ1"), "abÑ1");
}
