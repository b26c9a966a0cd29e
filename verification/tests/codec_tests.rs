use simple_prefs::codec::serialize;
use simple_prefs::parse::deserialize;
use simple_prefs::value::{FieldValue, PrefField, PreferenceSet};

fn field(name: &str, value: FieldValue) -> PrefField {
    PrefField { name: String::from(name), value }
}

fn uint(n: u64) -> FieldValue {
    FieldValue::UInt(n)
}

fn boolean(b: bool) -> FieldValue {
    FieldValue::Bool(b)
}

fn text(s: &str) -> FieldValue {
    FieldValue::Text(String::from(s))
}

fn choice(s: &str) -> FieldValue {
    FieldValue::Choice(String::from(s))
}

fn two_field_defaults() -> PreferenceSet {
    PreferenceSet {
        fields: vec![field("volume", uint(50)), field("difficulty", choice("Normal"))],
    }
}

#[test]
fn serialize_two_fields() {
    let v = PreferenceSet {
        fields: vec![field("volume", uint(60)), field("difficulty", choice("Normal"))],
    };
    let s = serialize(&v).unwrap();
    assert_eq!(s, "(\n    volume: 60,\n    difficulty: Normal,\n)");
}

#[test]
fn serialize_empty_set() {
    let v = PreferenceSet { fields: vec![] };
    assert_eq!(serialize(&v).unwrap(), "(\n)");
}

#[test]
fn serialize_every_kind() {
    let v = PreferenceSet {
        fields: vec![
            field("count", uint(0)),
            field("max", uint(18446744073709551615)),
            field("on", boolean(true)),
            field("off", boolean(false)),
            field("label", text("a, b! (c)")),
            field("empty", text("")),
            field("mode", choice("Hard_2")),
        ],
    };
    let s = serialize(&v).unwrap();
    assert_eq!(
        s,
        "(\n    count: 0,\n    max: 18446744073709551615,\n    on: true,\n    off: false,\n    label: \"a, b! (c)\",\n    empty: \"\",\n    mode: Hard_2,\n)"
    );
}

#[test]
fn round_trip_every_kind() {
    let defaults = PreferenceSet {
        fields: vec![
            field("count", uint(7)),
            field("max", uint(1)),
            field("on", boolean(false)),
            field("off", boolean(true)),
            field("label", text("something else")),
            field("empty", text("x")),
            field("mode", choice("Other")),
        ],
    };
    let v = PreferenceSet {
        fields: vec![
            field("count", uint(0)),
            field("max", uint(18446744073709551615)),
            field("on", boolean(true)),
            field("off", boolean(false)),
            field("label", text("a, b! (c)")),
            field("empty", text("")),
            field("mode", choice("Hard_2")),
        ],
    };
    let s = serialize(&v).unwrap();
    let back = deserialize(&defaults, &s).unwrap();
    assert_eq!(back, v);
}

#[test]
fn missing_field_keeps_default() {
    let got = deserialize(&two_field_defaults(), "(\n    volume: 60,\n)").unwrap();
    assert_eq!(got.fields[0].value, uint(60));
    assert_eq!(got.fields[1].value, choice("Normal"));
}

#[test]
fn unknown_field_is_ignored() {
    let got = deserialize(
        &two_field_defaults(),
        "(\n    brightness: 10,\n    difficulty: Hard,\n)",
    )
    .unwrap();
    assert_eq!(got.fields[0].value, uint(50));
    assert_eq!(got.fields[1].value, choice("Hard"));
}

#[test]
fn broken_frame_is_rejected() {
    let d = two_field_defaults();
    assert!(deserialize(&d, "").is_err());
    assert!(deserialize(&d, "volume: 60").is_err());
    assert!(deserialize(&d, "(\n    volume 60,\n)").is_err());
    assert!(deserialize(&d, "(\n    volume: 60\n)").is_err());
    assert!(deserialize(&d, "(\n    volume: 60,\n").is_err());
    assert!(deserialize(&d, "(\n    : 60,\n)").is_err());
}

#[test]
fn ill_kinded_value_keeps_default() {
    let got = deserialize(
        &two_field_defaults(),
        "(\n    volume: Normal,\n    difficulty: 3,\n)",
    )
    .unwrap();
    assert_eq!(got, two_field_defaults());
}

#[test]
fn numbers_that_do_not_fit_keep_the_default() {
    let d = two_field_defaults();
    let got = deserialize(&d, "(\n    volume: 18446744073709551616,\n)").unwrap();
    assert_eq!(got.fields[0].value, uint(50));
    let edge = deserialize(&d, "(\n    volume: 18446744073709551615,\n)").unwrap();
    assert_eq!(edge.fields[0].value, uint(18446744073709551615));
}

#[test]
fn leading_zero_keeps_the_default() {
    let got = deserialize(&two_field_defaults(), "(\n    volume: 007,\n)").unwrap();
    assert_eq!(got.fields[0].value, uint(50));
    let zero = deserialize(&two_field_defaults(), "(\n    volume: 0,\n)").unwrap();
    assert_eq!(zero.fields[0].value, uint(0));
}

#[test]
fn hand_edited_whitespace_is_accepted() {
    let d = two_field_defaults();
    let got = deserialize(&d, "(\nvolume: 61,\n)").unwrap();
    assert_eq!(got.fields[0].value, uint(61));
    let got = deserialize(&d, "(\n        volume:      62,\n)").unwrap();
    assert_eq!(got.fields[0].value, uint(62));
    let got = deserialize(&d, "(\n    volume: 63,\n)\n").unwrap();
    assert_eq!(got.fields[0].value, uint(63));
}

#[test]
fn later_duplicate_entry_wins() {
    let got = deserialize(&two_field_defaults(), "(\n    volume: 1,\n    volume: 2,\n)").unwrap();
    assert_eq!(got.fields[0].value, uint(2));
}

#[test]
fn empty_record_round_trip() {
    let v = PreferenceSet { fields: vec![] };
    let s = serialize(&v).unwrap();
    let back = deserialize(&v, &s).unwrap();
    assert_eq!(back, v);
}

#[test]
fn encode_rejects_bad_names() {
    let v = PreferenceSet { fields: vec![field("has space", uint(1))] };
    assert!(serialize(&v).is_err());
    let v = PreferenceSet { fields: vec![field("", uint(1))] };
    assert!(serialize(&v).is_err());
    let v = PreferenceSet { fields: vec![field("7seas", uint(1))] };
    assert!(serialize(&v).is_err());
}

#[test]
fn encode_rejects_duplicate_names() {
    let v = PreferenceSet { fields: vec![field("a", uint(1)), field("a", uint(2))] };
    assert!(serialize(&v).is_err());
}

#[test]
fn encode_rejects_unframeable_values() {
    let v = PreferenceSet { fields: vec![field("label", text("say \"hi\""))] };
    assert!(serialize(&v).is_err());
    let v = PreferenceSet { fields: vec![field("label", text("back\\slash"))] };
    assert!(serialize(&v).is_err());
    let v = PreferenceSet { fields: vec![field("label", text("two\nlines"))] };
    assert!(serialize(&v).is_err());
    let v = PreferenceSet { fields: vec![field("mode", choice("not ident"))] };
    assert!(serialize(&v).is_err());
}

#[test]
fn records_are_valid_ron() {
    let v = PreferenceSet {
        fields: vec![
            field("volume", uint(60)),
            field("muted", boolean(false)),
            field("label", text("hi there, friend")),
        ],
    };
    let s = serialize(&v).unwrap();
    let ours: ron::Value = ron::from_str(&s).unwrap();
    let reference: ron::Value =
        ron::from_str("(volume: 60, muted: false, label: \"hi there, friend\")").unwrap();
    assert_eq!(ours, reference);
}
