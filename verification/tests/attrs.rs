use mira_core::attrindex::{index, str_column};
use mira_core::attrs::{AttrsBuilder, DictColumn};
use mira_core::error::Error;
use mira_core::interning::{resource_kv, scope_kv, ResourceScope};
use mira_core::otlp::{AnyKind, AnyValue, InstrumentationScope, KeyValue, Resource};
use mira_core::proto::decode_any;
use mira_core::scan::Named;
use mira_core::schema::{AttrType, DICT_CAP};
use mira_core::table::{Data, Table};

fn any(v: AnyKind) -> AnyValue {
    AnyValue { value: Some(v) }
}

fn text(s: &str) -> AnyValue {
    any(AnyKind::StringValue(s.to_string()))
}

fn u8s(t: &Table, c: usize) -> Vec<u8> {
    match &t.fields[c].column.data {
        Data::U8(v) => v.clone(),
        _ => panic!("column {c} is not bytes"),
    }
}

fn scope(name: &str, version: &str) -> InstrumentationScope {
    InstrumentationScope {
        name: name.to_string(),
        version: version.to_string(),
        attributes: Vec::new(),
        dropped_attributes_count: 0,
    }
}

/// `type` names exactly one of the six value columns, and that column is the
/// only one of them that is not null on the row.
#[test]
fn every_any_value_variant_fills_exactly_the_column_its_type_names() {
    let mut b = AttrsBuilder::new("log_attrs.key");
    assert!(b.is_empty(), "a fresh table has no rows");

    let nested = || {
        vec![KeyValue {
            key: "inner".to_string(),
            value: Some(any(AnyKind::IntValue(1))),
        }]
    };
    let rows: Vec<(&str, Option<AnyValue>, AttrType, Option<usize>)> = vec![
        ("absent", None, AttrType::Empty, None),
        ("unset", Some(AnyValue { value: None }), AttrType::Empty, None),
        ("str", Some(text("s")), AttrType::Str, Some(3)),
        ("int", Some(any(AnyKind::IntValue(-7))), AttrType::Int, Some(4)),
        (
            "double",
            Some(any(AnyKind::DoubleValue(0.5f64.to_bits()))),
            AttrType::Double,
            Some(5),
        ),
        ("bool", Some(any(AnyKind::BoolValue(true))), AttrType::Bool, Some(6)),
        (
            "bytes",
            Some(any(AnyKind::BytesValue(vec![0xde, 0xad]))),
            AttrType::Bytes,
            Some(7),
        ),
        (
            "slice",
            Some(any(AnyKind::ArrayValue(vec![any(AnyKind::IntValue(1)), text("x")]))),
            AttrType::Slice,
            Some(8),
        ),
        (
            "map",
            Some(any(AnyKind::KvlistValue(nested()))),
            AttrType::KvList,
            Some(8),
        ),
    ];
    for (i, (key, value, _, _)) in rows.iter().enumerate() {
        b.append(i as u32, key, value.as_ref()).expect("append");
    }
    assert_eq!(b.len(), rows.len());
    assert!(!b.is_empty());

    let batch = b.finish().expect("finish");
    assert_eq!(batch.rows, rows.len());
    assert!(batch.check());
    let types = u8s(&batch, 2);
    for (row, (key, _, ty, col)) in rows.iter().enumerate() {
        assert_eq!(types[row], ty.code(), "{key} stored the wrong type");
        for c in 3..9 {
            assert_eq!(
                !batch.fields[c].column.is_valid(row),
                Some(c) != *col,
                "{key}: column {c} nullness"
            );
        }
    }
    // A nested value round-trips through the `ser` column.
    let ser = match &batch.fields[8].column.data {
        Data::Binary(v) => v[8].clone(),
        _ => panic!("`ser` is not binary"),
    };
    match decode_any(&ser).expect("ser decodes").value {
        Some(AnyKind::KvlistValue(kvs)) => {
            assert_eq!(kvs.len(), 1);
            assert_eq!(kvs[0].key, "inner");
            assert!(matches!(
                &kvs[0].value,
                Some(AnyValue { value: Some(AnyKind::IntValue(1)) })
            ));
        }
        _ => panic!("not the map that went in"),
    }
    assert!(
        b.heap_bytes() > ser.len(),
        "the seal estimate must see every variable-width heap"
    );
}

/// A value that repeats is stored once, and charged once.
#[test]
fn a_repeated_attribute_value_is_stored_once() {
    let prompt = "summarise the incident in one paragraph".repeat(64);
    let mut b = AttrsBuilder::new("log_attrs.key");
    for i in 0..1_000 {
        b.append(i, "gen_ai.prompt", Some(&text(&prompt))).unwrap();
    }
    assert_eq!(
        b.heap_bytes(),
        prompt.len(),
        "a thousand copies of one value are one value"
    );

    let batch = b.finish().unwrap();
    let strs = str_column(&batch);
    assert_eq!(strs.value(0), prompt);
    assert_eq!(strs.value(999), prompt);
    assert!(strs.is_valid(999));
    assert!(
        matches!(&batch.fields[3].column.data, Data::Dict32(_, _)),
        "the key width is the one the reader expects"
    );

    // A distinct value still costs its own bytes.
    b.append(0, "gen_ai.prompt", Some(&text("no"))).unwrap();
    assert_eq!(b.heap_bytes(), prompt.len() + 2);
}

/// What the attribute filter is built over is spelled the way a query spells
/// it.
#[test]
fn the_attribute_index_spells_every_comparable_value_the_way_a_query_will() {
    let mut b = AttrsBuilder::new("log_attrs.key");
    for (key, v) in vec![
        ("service.name", text("checkout")),
        ("http.status", any(AnyKind::IntValue(503))),
        ("canary", any(AnyKind::BoolValue(true))),
        ("stable", any(AnyKind::BoolValue(false))),
        ("ratio", any(AnyKind::DoubleValue(0.25f64.to_bits()))),
        ("blob", any(AnyKind::BytesValue(vec![1, 2]))),
    ] {
        b.append(0, key, Some(&v)).expect("append");
    }
    b.append(0, "missing", None).expect("append");
    let batch = b.finish().expect("finish");

    let f = index(&vec![Named { name: "log_attrs".to_string(), table: batch }])
        .expect("an index over seven rows");
    for (key, text) in [
        ("service.name", "checkout"),
        ("http.status", "503"),
        ("canary", "true"),
        ("stable", "false"),
    ] {
        assert!(
            f.pairs.iter().any(|(k, t)| k == key && t == text),
            "{key}={text} was indexed as something else"
        );
    }
    assert_eq!(f.pairs.len(), 4, "and nothing else is listed");
    // A double is not indexed by value, so the flag tells the reader not to
    // trust a miss.
    assert!(f.has_double);
    // A table with nothing comparable in it has no index at all.
    let mut only_bytes = AttrsBuilder::new("log_attrs.key");
    only_bytes
        .append(0, "blob", Some(&any(AnyKind::BytesValue(vec![9]))))
        .expect("append");
    let t = only_bytes.finish().expect("finish");
    assert!(index(&vec![Named { name: "log_attrs".to_string(), table: t }]).is_none());
}

/// Scope name and version are synthesised into the attribute table, so the key
/// dictionary can overflow on a row the caller never wrote.
#[test]
fn a_full_key_dictionary_is_an_error_that_leaves_the_block_sealable() {
    let mut rs = ResourceScope::default();
    assert!(rs.is_empty(), "a fresh preamble contributes no rows");

    for i in 0..DICT_CAP {
        rs.scope_attrs.append(0, &format!("k{i}"), None).expect("headroom");
    }
    assert!(!rs.has_headroom(1, 1, 0, 1), "the hint must see the ceiling");
    assert!(!rs.is_empty());

    // The key that does not fit is the `otel.scope.name` that is synthesised.
    let e = rs
        .scope(Some(&scope("payments", "1.2.3")))
        .expect_err("the dictionary is full");
    assert!(matches!(e, Error::DictionaryFull("scope_attrs.key")), "{}", e.message());
    let tables = rs.finish().expect("a full table is still a sealable one");
    assert_eq!(tables[2].name, "scope_attrs");
    assert_eq!(tables[2].table.rows, DICT_CAP);
}

#[test]
fn identical_resources_and_scopes_intern_to_one_row_and_different_ones_do_not() {
    let mut rs = ResourceScope::new();
    let res = |name: &str| Resource {
        attributes: vec![KeyValue {
            key: "service.name".to_string(),
            value: Some(text(name)),
        }],
        dropped_attributes_count: 0,
    };
    assert_eq!(rs.resource(Some(&res("checkout"))).expect("resource"), 0);
    assert_eq!(rs.resource(Some(&res("checkout"))).expect("resource"), 0);
    assert_eq!(rs.resource(Some(&res("payments"))).expect("resource"), 1);
    // No resource at all is its own interned entry rather than an error.
    assert_eq!(rs.resource(None).expect("resource"), 2);

    let tracer = scope("tracer", "");
    assert_eq!(rs.scope(Some(&tracer)).expect("scope"), 0);
    assert_eq!(rs.scope(Some(&tracer)).expect("scope"), 0);
    assert_eq!(rs.scope(None).expect("scope"), 1);
    // A scope with no version synthesises one key, not two.
    assert_eq!(rs.scope_attrs.len(), 1);
    assert_eq!(scope_kv(Some(&tracer)), 2, "the hint counts both, on purpose");
    assert_eq!(resource_kv(Some(&res("checkout"))), 1);
    assert_eq!(resource_kv(None), 0);

    let tables = rs.finish().expect("finish");
    let names: Vec<&str> = tables.iter().map(|t| t.name.as_str()).collect();
    assert_eq!(names, ["resources", "resource_attrs", "scope_attrs"]);
    assert_eq!(tables[0].table.rows, 3, "three distinct resources");
    assert_eq!(tables[1].table.rows, 2, "and two of them carry one attr");
    assert_eq!(rs.len(), 3);
    assert!(rs.heap_bytes() > 0);
}

#[test]
fn a_dictionary_column_stores_the_unset_string_as_null_and_refuses_to_overflow() {
    let mut d = DictColumn::new("logs.severity_text");
    assert!(d.has_headroom(DICT_CAP));
    d.append("").expect("empty");
    d.append("ERROR").expect("value");
    d.append("ERROR").expect("repeat");
    let col = d.finish();
    assert_eq!(col.len(), 3);
    assert!(!col.is_valid(0), "proto3's unset string is not a slot");
    assert!(d.has_headroom(DICT_CAP - 1));
    assert!(
        !d.has_headroom(DICT_CAP),
        "one distinct value used, so one fewer fits"
    );
}
