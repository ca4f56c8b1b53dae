use logenc::text::{Expecting, Formatter};
use logenc::value::{EncodableValue, EncodeError, VariantPayload};

fn s(x: &str) -> String {
    x.to_string()
}

fn pairs(items: Vec<(&str, EncodableValue)>) -> Vec<(String, EncodableValue)> {
    items.into_iter().map(|(k, v)| (s(k), v)).collect()
}

#[test]
fn flat_pairs_render_as_key_value_lines() {
    let kvs = pairs(vec![
        ("id", EncodableValue::Int64(1)),
        ("name", EncodableValue::Str(s("log"))),
        ("path", EncodableValue::Str(s("./monkey-path"))),
    ]);
    let mut f = Formatter::new(false);
    f.encode_entries(&kvs);
    assert_eq!(f.out, "id: 1\nname: log\npath: ./monkey-path\n");
}

#[test]
fn write_key_values_starts_with_blank_line() {
    let kvs = pairs(vec![("id", EncodableValue::Int64(1))]);
    let mut f = Formatter::new(false);
    f.write_key_values(&kvs);
    assert_eq!(f.out, "\nid: 1\n");
}

#[test]
fn rendering_twice_is_byte_identical() {
    let make = || {
        pairs(vec![
            ("id", EncodableValue::Int64(1)),
            (
                "details",
                EncodableValue::Mapping(pairs(vec![
                    ("a", EncodableValue::Bool(true)),
                    ("b", EncodableValue::Sequence(vec![
                        EncodableValue::UInt64(7),
                        EncodableValue::Null,
                    ])),
                ])),
            ),
        ])
    };
    let mut f1 = Formatter::new(false);
    f1.encode_entries(&make());
    let mut f2 = Formatter::new(false);
    f2.encode_entries(&make());
    assert_eq!(f1.out, f2.out);
}

#[test]
fn nested_mapping_indents_two_columns() {
    let kvs = pairs(vec![(
        "details",
        EncodableValue::Mapping(pairs(vec![
            ("id", EncodableValue::Int64(15)),
            ("name", EncodableValue::Str(s("Whiskers"))),
        ])),
    )]);
    let mut f = Formatter::new(false);
    f.encode_entries(&kvs);
    assert_eq!(f.out, "details:\n  id: 15\n  name: Whiskers\n");
}

#[test]
fn doubly_nested_mapping_indents_four_columns() {
    let kvs = pairs(vec![(
        "outer",
        EncodableValue::Mapping(pairs(vec![(
            "inner",
            EncodableValue::Mapping(pairs(vec![("x", EncodableValue::Int64(1))])),
        )])),
    )]);
    let mut f = Formatter::new(false);
    f.encode_entries(&kvs);
    assert_eq!(f.out, "outer:\n  inner:\n    x: 1\n");
}

#[test]
fn sequence_elements_each_on_their_own_line() {
    let kvs = pairs(vec![(
        "xs",
        EncodableValue::Sequence(vec![
            EncodableValue::Int64(1),
            EncodableValue::Int64(2),
            EncodableValue::Str(s("three")),
        ]),
    )]);
    let mut f = Formatter::new(false);
    f.encode_entries(&kvs);
    assert_eq!(f.out, "xs:\n  1\n  2\n  three\n");
}

#[test]
fn mapping_inside_sequence_keeps_element_indent() {
    let kvs = pairs(vec![(
        "xs",
        EncodableValue::Sequence(vec![
            EncodableValue::Mapping(pairs(vec![("a", EncodableValue::Int64(1))])),
            EncodableValue::Int64(2),
        ]),
    )]);
    let mut f = Formatter::new(false);
    f.encode_entries(&kvs);
    assert_eq!(f.out, "xs:\n  a: 1\n  2\n");
}

#[test]
fn styled_keys_are_bold() {
    let kvs = pairs(vec![("id", EncodableValue::Int64(1))]);
    let mut f = Formatter::new(true);
    f.encode_entries(&kvs);
    assert_eq!(f.out, "\u{1b}[1mid\u{1b}[0m: 1\n");
}

#[test]
fn property_style_follows_renderer_styling() {
    let f = Formatter::new(true);
    assert!(f.property_style().bold);
    let g = Formatter::new(false);
    assert!(!g.property_style().bold);
}

#[test]
fn bytes_render_as_number_lines() {
    let kvs = pairs(vec![("b", EncodableValue::Bytes(vec![0, 1, 255]))]);
    let mut f = Formatter::new(false);
    f.encode_entries(&kvs);
    assert_eq!(f.out, "b:\n  0\n  1\n  255\n");
}

#[test]
fn scalar_leaves_render_exactly() {
    let kvs = pairs(vec![
        ("n", EncodableValue::Null),
        ("t", EncodableValue::Bool(true)),
        ("f", EncodableValue::Bool(false)),
        ("neg", EncodableValue::Int64(-42)),
        ("min", EncodableValue::Int64(i64::MIN)),
        ("big", EncodableValue::UInt64(u64::MAX)),
        ("fl", EncodableValue::Float64(s("2.5"))),
        ("c", EncodableValue::Char('x')),
    ]);
    let mut f = Formatter::new(false);
    f.encode_entries(&kvs);
    assert_eq!(
        f.out,
        "n: null\nt: true\nf: false\nneg: -42\nmin: -9223372036854775808\n\
         big: 18446744073709551615\nfl: 2.5\nc: x\n"
    );
}

#[test]
fn unit_variant_renders_as_null_entry() {
    let kvs = pairs(vec![(
        "v",
        EncodableValue::Variant { name: s("None"), payload: VariantPayload::Unit },
    )]);
    let mut f = Formatter::new(false);
    f.encode_entries(&kvs);
    assert_eq!(f.out, "v:\n  None: null\n");
}

#[test]
fn newtype_variant_renders_payload_as_value() {
    let kvs = pairs(vec![(
        "v",
        EncodableValue::Variant {
            name: s("Wrapped"),
            payload: VariantPayload::Newtype(Box::new(EncodableValue::Int64(9))),
        },
    )]);
    let mut f = Formatter::new(false);
    f.encode_entries(&kvs);
    assert_eq!(f.out, "v:\n  Wrapped: 9\n");
}

#[test]
fn tuple_variant_renders_elements() {
    let kvs = pairs(vec![(
        "v",
        EncodableValue::Variant {
            name: s("Pair"),
            payload: VariantPayload::Tuple(vec![
                EncodableValue::Int64(1),
                EncodableValue::Int64(2),
            ]),
        },
    )]);
    let mut f = Formatter::new(false);
    f.encode_entries(&kvs);
    assert_eq!(f.out, "v:\n  Pair:\n    1\n    2\n");
}

#[test]
fn struct_variant_renders_fields() {
    let kvs = pairs(vec![(
        "v",
        EncodableValue::Variant {
            name: s("Point"),
            payload: VariantPayload::Struct(pairs(vec![
                ("x", EncodableValue::Int64(1)),
                ("y", EncodableValue::Int64(2)),
            ])),
        },
    )]);
    let mut f = Formatter::new(false);
    f.encode_entries(&kvs);
    assert_eq!(f.out, "v:\n  Point:\n    x: 1\n    y: 2\n");
}

#[test]
fn container_in_key_position_is_reported() {
    let mut f = Formatter::new(false);
    let r = f.begin_mapping();
    assert_eq!(r, Err(EncodeError::ContainerAsKey));
    assert_eq!(f.out, "");
}

#[test]
fn end_without_begin_is_reported() {
    let mut f = Formatter::new(false);
    let r = f.end_mapping();
    assert_eq!(r, Err(EncodeError::UnbalancedEnd));
    let r2 = f.end_sequence();
    assert_eq!(r2, Err(EncodeError::UnbalancedEnd));
}

#[test]
fn describe_names_each_failure() {
    assert_eq!(
        EncodeError::UnbalancedEnd.describe(),
        "end call without a matching begin"
    );
    assert_eq!(
        EncodeError::ContainerAsKey.describe(),
        "container opened in key position"
    );
    assert_eq!(
        EncodeError::Message("boom".to_string()).describe(),
        "a nested value failed to encode"
    );
}

#[test]
fn protocol_calls_render_like_the_tree_walk() {
    // A value source of unknown shape drives the encoder through the
    // protocol directly; the same tree walked by the encoder must yield
    // the same bytes.
    let mut by_calls = Formatter::new(false);
    by_calls.scalar(&EncodableValue::Str(s("details")));
    by_calls.begin_mapping().unwrap();
    by_calls.scalar(&EncodableValue::Str(s("id")));
    by_calls.scalar(&EncodableValue::Int64(15));
    by_calls.scalar(&EncodableValue::Str(s("xs")));
    by_calls.begin_sequence().unwrap();
    by_calls.scalar(&EncodableValue::Int64(1));
    by_calls.scalar(&EncodableValue::Int64(2));
    by_calls.end_sequence().unwrap();
    by_calls.end_mapping().unwrap();

    let kvs = pairs(vec![(
        "details",
        EncodableValue::Mapping(pairs(vec![
            ("id", EncodableValue::Int64(15)),
            (
                "xs",
                EncodableValue::Sequence(vec![
                    EncodableValue::Int64(1),
                    EncodableValue::Int64(2),
                ]),
            ),
        ])),
    )]);
    let mut by_tree = Formatter::new(false);
    by_tree.encode_entries(&kvs);
    assert_eq!(by_calls.out, by_tree.out);
    assert_eq!(by_calls.out, "details:\n  id: 15\n  xs:\n    1\n    2\n");
}

#[test]
fn variant_protocol_call_matches_tree_walk() {
    let mut by_call = Formatter::new(false);
    by_call.scalar(&EncodableValue::Str(s("v")));
    by_call.variant(
        "Pair",
        &VariantPayload::Tuple(vec![EncodableValue::Int64(1), EncodableValue::Int64(2)]),
    );
    let kvs = pairs(vec![(
        "v",
        EncodableValue::Variant {
            name: s("Pair"),
            payload: VariantPayload::Tuple(vec![
                EncodableValue::Int64(1),
                EncodableValue::Int64(2),
            ]),
        },
    )]);
    let mut by_tree = Formatter::new(false);
    by_tree.encode_entries(&kvs);
    assert_eq!(by_call.out, by_tree.out);
}

#[test]
fn indent_is_two_columns_per_key_context() {
    let mut f = Formatter::new(false);
    let check = |f: &Formatter| {
        let keys = f
            .stack
            .iter()
            .filter(|e| matches!(e, Expecting::Key))
            .count();
        assert_eq!(f.indent.len(), 2 * keys);
    };
    check(&f);
    f.scalar(&EncodableValue::Str(s("a")));
    f.begin_mapping().unwrap();
    check(&f);
    f.scalar(&EncodableValue::Str(s("b")));
    f.begin_sequence().unwrap();
    check(&f);
    f.begin_sequence().unwrap();
    check(&f);
    f.end_sequence().unwrap();
    check(&f);
    f.end_sequence().unwrap();
    check(&f);
    f.end_mapping().unwrap();
    check(&f);
}
