use logenc::builder::Builder;
use logenc::flatten::{flatten, FlattenedRecord};
use logenc::json::{json_format_record, render_json};
use logenc::value::{EncodableValue, Level, VariantPayload};

fn s(x: &str) -> String {
    x.to_string()
}

fn pairs(items: Vec<(&str, EncodableValue)>) -> Vec<(String, EncodableValue)> {
    items.into_iter().map(|(k, v)| (s(k), v)).collect()
}

fn json_of(fields: Vec<(&str, EncodableValue)>) -> String {
    let rec = FlattenedRecord::new(s("t0"), Level::Info, s("m"), pairs(fields));
    render_json(&rec)
}

#[test]
fn duplicate_names_keep_last_value() {
    let r = flatten(pairs(vec![
        ("id", EncodableValue::Int64(1)),
        ("id", EncodableValue::Int64(2)),
    ]));
    assert_eq!(r.len(), 1);
    assert_eq!(r[0].0, "id");
    assert!(matches!(r[0].1, EncodableValue::Int64(2)));
}

#[test]
fn names_come_out_in_ascending_order() {
    let r = flatten(pairs(vec![
        ("b", EncodableValue::Int64(2)),
        ("c", EncodableValue::Int64(3)),
        ("a", EncodableValue::Int64(1)),
    ]));
    let names: Vec<&str> = r.iter().map(|p| p.0.as_str()).collect();
    assert_eq!(names, vec!["a", "b", "c"]);
}

#[test]
fn permuted_inputs_flatten_identically() {
    let one = json_of(vec![
        ("b", EncodableValue::Int64(2)),
        ("a", EncodableValue::Int64(1)),
        ("c", EncodableValue::Int64(3)),
    ]);
    let two = json_of(vec![
        ("c", EncodableValue::Int64(3)),
        ("b", EncodableValue::Int64(2)),
        ("a", EncodableValue::Int64(1)),
    ]);
    assert_eq!(one, two);
}

#[test]
fn interleaved_duplicates_keep_last_and_sort() {
    let r = flatten(pairs(vec![
        ("b", EncodableValue::Int64(1)),
        ("a", EncodableValue::Int64(2)),
        ("b", EncodableValue::Int64(3)),
    ]));
    let got: Vec<(&str, &EncodableValue)> =
        r.iter().map(|p| (p.0.as_str(), &p.1)).collect();
    assert_eq!(got.len(), 2);
    assert_eq!(got[0].0, "a");
    assert!(matches!(got[0].1, EncodableValue::Int64(2)));
    assert_eq!(got[1].0, "b");
    assert!(matches!(got[1].1, EncodableValue::Int64(3)));
}

#[test]
fn empty_source_gives_metadata_only_record() {
    let rec = FlattenedRecord::new(s("2024-01-01T00:00:00Z"), Level::Info, s("hello"), vec![]);
    assert!(rec.fields.is_empty());
    assert_eq!(
        render_json(&rec),
        "{\"timestamp\":\"2024-01-01T00:00:00Z\",\"level\":\"info\",\"msg\":\"hello\"}"
    );
}

#[test]
fn json_record_line_has_fixed_fields_first() {
    let line = json_format_record(
        s("t0"),
        Level::Warn,
        s("msg text"),
        pairs(vec![
            ("name", EncodableValue::Str(s("log"))),
            ("id", EncodableValue::Int64(1)),
        ]),
    );
    assert_eq!(
        line,
        "{\"timestamp\":\"t0\",\"level\":\"warn\",\"msg\":\"msg text\",\"id\":1,\"name\":\"log\"}\n"
    );
}

#[test]
fn dynamic_field_never_shadows_fixed_metadata() {
    let line = json_format_record(
        s("t0"),
        Level::Error,
        s("m"),
        pairs(vec![("level", EncodableValue::Str(s("custom")))]),
    );
    assert_eq!(
        line,
        "{\"timestamp\":\"t0\",\"level\":\"error\",\"msg\":\"m\",\"level\":\"custom\"}\n"
    );
}

#[test]
fn all_level_names_are_lower_case() {
    assert_eq!(Level::Error.as_text(), "error");
    assert_eq!(Level::Warn.as_text(), "warn");
    assert_eq!(Level::Info.as_text(), "info");
    assert_eq!(Level::Debug.as_text(), "debug");
    assert_eq!(Level::Trace.as_text(), "trace");
}

#[test]
fn strings_are_escaped() {
    let out = json_of(vec![(
        "q",
        EncodableValue::Str(s("a\"b\\c\nd\re\tf\u{1}g")),
    )]);
    assert_eq!(
        out,
        "{\"timestamp\":\"t0\",\"level\":\"info\",\"msg\":\"m\",\
         \"q\":\"a\\\"b\\\\c\\nd\\re\\tf\\u0001g\"}"
    );
}

#[test]
fn control_char_gets_four_digit_escape() {
    let out = json_of(vec![("c", EncodableValue::Char('\u{1f}'))]);
    assert_eq!(
        out,
        "{\"timestamp\":\"t0\",\"level\":\"info\",\"msg\":\"m\",\"c\":\"\\u001f\"}"
    );
}

#[test]
fn numbers_render_exactly() {
    let out = json_of(vec![
        ("min", EncodableValue::Int64(i64::MIN)),
        ("neg", EncodableValue::Int64(-7)),
        ("zero", EncodableValue::UInt64(0)),
        ("max", EncodableValue::UInt64(u64::MAX)),
    ]);
    assert_eq!(
        out,
        "{\"timestamp\":\"t0\",\"level\":\"info\",\"msg\":\"m\",\
         \"max\":18446744073709551615,\"min\":-9223372036854775808,\
         \"neg\":-7,\"zero\":0}"
    );
}

#[test]
fn composite_values_render_as_json_trees() {
    let out = json_of(vec![
        ("b", EncodableValue::Bytes(vec![1, 2])),
        ("e", EncodableValue::Sequence(vec![])),
        ("fl", EncodableValue::Float64(s("1.25"))),
        (
            "m",
            EncodableValue::Mapping(pairs(vec![
                ("k", EncodableValue::Null),
                ("l", EncodableValue::Bool(false)),
            ])),
        ),
        (
            "seq",
            EncodableValue::Sequence(vec![
                EncodableValue::Int64(1),
                EncodableValue::Str(s("x")),
            ]),
        ),
    ]);
    assert_eq!(
        out,
        "{\"timestamp\":\"t0\",\"level\":\"info\",\"msg\":\"m\",\
         \"b\":[1,2],\"e\":[],\"fl\":1.25,\
         \"m\":{\"k\":null,\"l\":false},\"seq\":[1,\"x\"]}"
    );
}

#[test]
fn variants_render_as_one_entry_objects() {
    let out = json_of(vec![
        (
            "u",
            EncodableValue::Variant { name: s("None"), payload: VariantPayload::Unit },
        ),
        (
            "w",
            EncodableValue::Variant {
                name: s("Some"),
                payload: VariantPayload::Newtype(Box::new(EncodableValue::Int64(3))),
            },
        ),
        (
            "x",
            EncodableValue::Variant {
                name: s("Pair"),
                payload: VariantPayload::Tuple(vec![
                    EncodableValue::Int64(1),
                    EncodableValue::Int64(2),
                ]),
            },
        ),
        (
            "y",
            EncodableValue::Variant {
                name: s("Point"),
                payload: VariantPayload::Struct(pairs(vec![("x", EncodableValue::Int64(9))])),
            },
        ),
    ]);
    assert_eq!(
        out,
        "{\"timestamp\":\"t0\",\"level\":\"info\",\"msg\":\"m\",\
         \"u\":{\"None\":null},\"w\":{\"Some\":3},\
         \"x\":{\"Pair\":[1,2]},\"y\":{\"Point\":{\"x\":9}}}"
    );
}

#[test]
fn builder_text_path_appends_key_values_to_message() {
    let b = Builder::new();
    let out = b.format_record(
        s("t0"),
        Level::Info,
        s("the message"),
        pairs(vec![("id", EncodableValue::Int64(1))]),
    );
    assert_eq!(out, "the message\nid: 1\n");
}

#[test]
fn builder_json_path_emits_one_object_line() {
    let mut b = Builder::new();
    b.json_format();
    let out = b.format_record(
        s("t0"),
        Level::Debug,
        s("m"),
        pairs(vec![("id", EncodableValue::Int64(1))]),
    );
    assert_eq!(
        out,
        "{\"timestamp\":\"t0\",\"level\":\"debug\",\"msg\":\"m\",\"id\":1}\n"
    );
}

#[test]
fn json_rendering_twice_is_byte_identical() {
    let make = || {
        pairs(vec![
            ("id", EncodableValue::Int64(1)),
            (
                "details",
                EncodableValue::Mapping(pairs(vec![("a", EncodableValue::Bool(true))])),
            ),
        ])
    };
    let one = json_format_record(s("t0"), Level::Info, s("m"), make());
    let two = json_format_record(s("t0"), Level::Info, s("m"), make());
    assert_eq!(one, two);
}
