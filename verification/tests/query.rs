use mira_core::attrfilter::dict_index;
use mira_core::attrs::AttrsBuilder;
use mira_core::emit::{emit_any, emit_value};
use mira_core::filter::{canon, field_filter, unhex};
use mira_core::float::{double_of, to_whole, Floats};
use mira_core::json::Json;
use mira_core::order::Rank;
use mira_core::otlp::{AnyKind, AnyValue, KeyValue};
use mira_core::proto::{decode_any, encode_any};
use mira_core::query::{Cursor, Op, Signal, Value};
use mira_core::scan::{index_by_parent, index_parent_of_id, Attrs};
use mira_core::table::{Column, Data, Field, Table};

/// What floating point says of the doubles and texts these tests use.
fn floats() -> Floats {
    let mut f = Floats::new();
    for v in [0.5f64, 1.0, 1.5, 2.0, 3.0, 3.5] {
        f.add_text(v.to_bits(), &format!("{v}"));
    }
    for s in ["2", "3.5"] {
        f.add_reading(s, s.parse::<f64>().unwrap().to_bits());
    }
    f
}

fn double(v: f64) -> Value {
    Value::Double(v.to_bits())
}

fn text(s: &str) -> Value {
    Value::Str(s.to_string())
}

fn column(data: Data) -> Column {
    Column { valid: None, data }
}

/// Three values and a null.
fn holed(data: Data) -> Column {
    Column { valid: Some(vec![true, true, true, false]), data }
}

/// The rows a column keeps; `u32::MAX` for "cannot be compared".
fn hits(c: &Column, op: Op, v: &Value) -> Vec<u32> {
    let mut sel: Vec<u32> = (0..c.len() as u32).collect();
    if field_filter(&mut sel, c, op, v, &floats()) {
        sel
    } else {
        vec![u32::MAX]
    }
}

fn strings(v: &[&str]) -> Vec<String> {
    v.iter().map(|s| s.to_string()).collect()
}

#[test]
fn every_column_type_compares_the_same_way() {
    let bits = |v: f64| v.to_bits();
    let cols: Vec<(&str, Column)> = vec![
        ("timestamp", holed(Data::Time(vec![1, 2, 3, 0]))),
        ("i64", holed(Data::I64(vec![1, 2, 3, 0]))),
        ("i32", holed(Data::I32(vec![1, 2, 3, 0]))),
        ("u64", holed(Data::U64(vec![1, 2, 3, 0]))),
        ("u32", holed(Data::U32(vec![1, 2, 3, 0]))),
        ("u16", holed(Data::U16(vec![1, 2, 3, 0]))),
        ("u8", holed(Data::U8(vec![1, 2, 3, 0]))),
        (
            "double",
            holed(Data::Double(vec![bits(1.0), bits(2.0), bits(3.0), 0])),
        ),
    ];
    for (name, c) in &cols {
        assert_eq!(hits(c, Op::Eq, &Value::Int(2)), [1], "{name} eq");
        assert_eq!(hits(c, Op::Ne, &Value::Int(2)), [0, 2], "{name} ne");
        assert_eq!(hits(c, Op::Lt, &Value::Int(2)), [0], "{name} lt");
        assert_eq!(hits(c, Op::Lte, &Value::Int(2)), [0, 1], "{name} lte");
        assert_eq!(hits(c, Op::Gt, &Value::Int(2)), [2], "{name} gt");
        assert_eq!(hits(c, Op::Gte, &Value::Int(2)), [1, 2], "{name} gte");
        // A null is not less than anything, and `ne` is where that bites.
        assert!(!hits(c, Op::Ne, &Value::Int(9)).contains(&3), "{name} null");
        assert_eq!(hits(c, Op::Eq, &text("2")), [1], "{name} str");
        // Nothing to compare against: no rows, not an error.
        assert_eq!(
            hits(c, Op::Eq, &Value::Bool(true)),
            [u32::MAX],
            "{name} bool"
        );
    }

    // A fractional target against an integer column has no integer to be equal
    // to.
    assert_eq!(hits(&cols[1].1, Op::Gt, &double(1.5)), [u32::MAX]);
    assert_eq!(hits(&cols[1].1, Op::Gt, &double(2.0)), [2]);
    // Doubles compare as doubles, and not-a-number is unordered.
    let f = column(Data::Double(vec![bits(1.5), bits(f64::NAN)]));
    assert_eq!(hits(&f, Op::Gt, &double(1.0)), [0]);
    assert_eq!(hits(&f, Op::Eq, &double(f64::NAN)), Vec::<u32>::new());

    let b = Column {
        valid: Some(vec![true, true, false]),
        data: Data::Bool(vec![true, false, false]),
    };
    assert_eq!(hits(&b, Op::Eq, &Value::Bool(true)), [0]);
    assert_eq!(hits(&b, Op::Eq, &text("false")), [1]);
    assert_eq!(hits(&b, Op::Eq, &Value::Int(1)), [u32::MAX]);

    let s = Column {
        valid: Some(vec![true, true, false]),
        data: Data::Text(strings(&["alpha", "beta", ""])),
    };
    assert_eq!(hits(&s, Op::Eq, &text("beta")), [1]);
    assert_eq!(hits(&s, Op::Contains, &text("et")), [1]);
    assert_eq!(hits(&s, Op::Lt, &text("b")), [0]);
    assert_eq!(hits(&s, Op::Eq, &Value::Int(1)), [u32::MAX]);

    let d = column(Data::Dict16(vec![0, 1, 0], strings(&["ERROR", "INFO"])));
    assert_eq!(hits(&d, Op::Eq, &text("ERROR")), [0, 2]);
    // A value that is not in the dictionary cannot match any row.
    assert_eq!(hits(&d, Op::Eq, &text("TRACE")), Vec::<u32>::new());

    // Ids arrive as hex and live as bytes.
    let ids = column(Data::Fixed(vec![vec![1, 2], vec![3, 4]]));
    assert_eq!(hits(&ids, Op::Eq, &text("0102")), [0]);
    assert_eq!(hits(&ids, Op::Gt, &text("0102")), [1]);
    assert_eq!(hits(&ids, Op::Eq, &text("zz")), [u32::MAX]);
    assert_eq!(hits(&ids, Op::Eq, &text("010")), [u32::MAX]);

    // A type with no comparison is not a panic and not an error.
    let l = column(Data::List(vec![column(Data::I64(vec![1]))]));
    assert_eq!(hits(&l, Op::Eq, &Value::Int(1)), [u32::MAX]);
    let o = column(Data::Other(2));
    assert_eq!(hits(&o, Op::Eq, &Value::Int(1)), [u32::MAX]);
}

#[test]
fn every_column_type_materializes_as_the_json_type_it_is() {
    let f = floats();
    let cell = |c: &Column| {
        let mut j = Json::new();
        j.arr(|j| emit_value(j, c, 0, &f));
        let s = j.into_string();
        s[1..s.len() - 1].to_owned()
    };
    let l = column(Data::List(vec![Column {
        valid: Some(vec![true, false, true]),
        data: Data::I64(vec![1, 0, 3]),
    }]));
    let cases: Vec<(Column, &str)> = vec![
        // 64-bit numbers are quoted and the narrower ones are not.
        (
            column(Data::Time(vec![1_700_000_000_000_000_001])),
            r#""1700000000000000001""#,
        ),
        (column(Data::I64(vec![-7])), r#""-7""#),
        (column(Data::I32(vec![-7])), "-7"),
        (column(Data::U64(vec![u64::MAX])), r#""18446744073709551615""#),
        (column(Data::U32(vec![7])), "7"),
        (column(Data::U16(vec![7])), "7"),
        (column(Data::U8(vec![7])), "7"),
        (column(Data::Double(vec![0.5f64.to_bits()])), "0.5"),
        (column(Data::Bool(vec![true])), "true"),
        (column(Data::Text(strings(&["a\"b"]))), r#""a\"b""#),
        (column(Data::Binary(vec![b"\xab\xcd".to_vec()])), r#""abcd""#),
        (column(Data::Fixed(vec![vec![0xab, 0xcd]])), r#""abcd""#),
        (column(Data::Dict16(vec![0], strings(&["ERROR"]))), r#""ERROR""#),
        // A null inside a list stays a null.
        (l, r#"["1",null,"3"]"#),
    ];
    for (c, want) in cases {
        assert_eq!(cell(&c), want);
    }

    // A type with no representation is null rather than a guess.
    assert_eq!(cell(&column(Data::Other(1))), "null");
}

#[test]
fn a_scalar_coerces_to_what_the_column_needs_or_to_nothing() {
    for (s, want) in [
        ("eq", Op::Eq),
        ("=", Op::Eq),
        ("==", Op::Eq),
        ("ne", Op::Ne),
        ("!=", Op::Ne),
        ("lt", Op::Lt),
        ("<", Op::Lt),
        ("lte", Op::Lte),
        ("<=", Op::Lte),
        ("gt", Op::Gt),
        (">", Op::Gt),
        ("gte", Op::Gte),
        (">=", Op::Gte),
        ("contains", Op::Contains),
        ("~", Op::Contains),
    ] {
        assert_eq!(Op::parse(s), Some(want), "{s}");
    }
    assert_eq!(Op::parse("=~"), None);
    for ord in [Rank::Less, Rank::Equal, Rank::Greater] {
        assert!(!Op::Contains.test_ord(ord));
    }

    assert_eq!(Value::Int(3).as_i64(), Some(3));
    assert_eq!(double(3.0).as_i64(), Some(3));
    assert_eq!(double(3.5).as_i64(), None);
    assert_eq!(text("3").as_i64(), Some(3));
    assert_eq!(text("3.5").as_i64(), None);
    assert_eq!(Value::Bool(true).as_i64(), None);

    let f = floats();
    let as_f64 = |v: Value| v.as_double(&f).map(f64::from_bits);
    assert_eq!(as_f64(Value::Int(3)), Some(3.0));
    assert_eq!(as_f64(double(3.5)), Some(3.5));
    assert_eq!(as_f64(text("3.5")), Some(3.5));
    assert_eq!(as_f64(text("x")), None);
    assert_eq!(as_f64(Value::Bool(true)), None);

    assert_eq!(Value::Bool(false).as_bool(), Some(false));
    assert_eq!(text("true").as_bool(), Some(true));
    assert_eq!(text("false").as_bool(), Some(false));
    assert_eq!(text("TRUE").as_bool(), None);
    assert_eq!(Value::Int(1).as_bool(), None);
    assert_eq!(double(1.0).as_bool(), None);

    assert_eq!(text("x").as_str(), Some("x"));
    assert_eq!(Value::Int(1).as_str(), None);

    assert_eq!(unhex("0aFf"), Some(vec![0x0a, 0xff]));
    assert_eq!(unhex(""), Some(vec![]));
    assert_eq!(unhex("abc"), None);
    assert_eq!(unhex("0g"), None);
    assert_eq!(unhex("0 1"), None);

    let vals = strings(&["a", "b"]);
    assert_eq!(dict_index(&vals, "b"), Some(1));
    assert_eq!(dict_index(&vals, "c"), None);
}

fn any(v: AnyKind) -> AnyValue {
    AnyValue { value: Some(v) }
}

#[test]
fn every_any_value_arm_renders_and_damage_renders_as_null() {
    let f = floats();
    let render = |v: Option<AnyKind>| {
        let mut j = Json::new();
        emit_any(&mut j, &encode_any(&AnyValue { value: v }), &f);
        j.into_string()
    };
    assert_eq!(render(None), "null");
    assert_eq!(render(Some(AnyKind::StringValue("s".to_string()))), r#""s""#);
    assert_eq!(render(Some(AnyKind::IntValue(-1))), r#""-1""#);
    assert_eq!(render(Some(AnyKind::DoubleValue(0.5f64.to_bits()))), "0.5");
    assert_eq!(render(Some(AnyKind::BoolValue(true))), "true");
    assert_eq!(render(Some(AnyKind::BytesValue(vec![0xbe, 0xef]))), r#""beef""#);
    assert_eq!(
        render(Some(AnyKind::ArrayValue(vec![
            AnyValue { value: None },
            any(AnyKind::KvlistValue(vec![KeyValue {
                key: "k".to_string(),
                value: Some(any(AnyKind::IntValue(2))),
            }])),
        ]))),
        r#"[null,{"k":"2"}]"#
    );

    // Bytes that are no message at all.
    let mut j = Json::new();
    emit_any(&mut j, &[0xff, 0xff, 0xff], &f);
    assert_eq!(j.into_string(), "null");
}

/// The encoding is the protobuf one, byte for byte.
#[test]
fn values_are_encoded_as_protobuf() {
    assert_eq!(encode_any(&AnyValue { value: None }), Vec::<u8>::new());
    assert_eq!(
        encode_any(&any(AnyKind::StringValue("hi".to_string()))),
        [0x0a, 2, b'h', b'i']
    );
    assert_eq!(encode_any(&any(AnyKind::BoolValue(true))), [0x10, 1]);
    assert_eq!(encode_any(&any(AnyKind::IntValue(300))), [0x18, 0xac, 0x02]);
    assert_eq!(
        encode_any(&any(AnyKind::DoubleValue(1.0f64.to_bits()))),
        [0x21, 0, 0, 0, 0, 0, 0, 0xf0, 0x3f]
    );
    assert_eq!(
        encode_any(&any(AnyKind::BytesValue(vec![9]))),
        [0x3a, 1, 9]
    );
    match decode_any(&[0x18, 0xac, 0x02]).unwrap().value {
        Some(AnyKind::IntValue(i)) => assert_eq!(i, 300),
        _ => panic!("not the integer"),
    }
    // The last of two members of the choice stands.
    match decode_any(&[0x10, 1, 0x18, 7]).unwrap().value {
        Some(AnyKind::IntValue(i)) => assert_eq!(i, 7),
        _ => panic!("not the last one"),
    }
    // A length past the end, and text that is not text.
    assert!(decode_any(&[0x0a, 5, b'x']).is_none());
    assert!(decode_any(&[0x0a, 1, 0xff]).is_none());
    // A field nobody knows is skipped.
    assert!(decode_any(&[0x78, 1]).unwrap().value.is_none());
}

fn table(fields: Vec<(&str, Data)>) -> Table {
    let fields: Vec<Field> = fields
        .into_iter()
        .map(|(n, d)| Field { name: n.to_string(), column: column(d) })
        .collect();
    let rows = fields[0].column.len();
    Table { fields, rows }
}

#[test]
fn a_child_row_finds_its_parent_by_its_own_id() {
    let b = table(vec![
        ("id", Data::U32(vec![2, 0])),
        ("parent_id", Data::U32(vec![7, 5])),
    ]);
    let idx = index_parent_of_id(&b);
    assert_eq!(idx.len(), 3, "dense from zero to the largest id");
    assert_eq!(idx[0], 5);
    assert_eq!(idx[1], u32::MAX, "an id no row claims has no parent");
    assert_eq!(idx[2], 7);

    let orphan = table(vec![("id", Data::U32(vec![2, 0]))]);
    assert!(index_parent_of_id(&orphan).is_empty());
    assert_eq!(index_by_parent(&b)[5], [1]);
    assert_eq!(index_by_parent(&b)[7], [0]);
}

#[test]
fn narrowing_a_selection_agrees_with_scanning_one_whole() {
    let f = floats();
    let plain = column(Data::I64(vec![1, 2, 3, 4, 5, 6]));
    let holed = Column {
        valid: Some(vec![true, false, true, true, false, true]),
        data: Data::I64(vec![1, 0, 3, 4, 0, 6]),
    };
    let gt2 = |sel: &mut Vec<u32>, c: &Column| {
        assert!(field_filter(sel, c, Op::Gt, &Value::Int(2), &f));
    };

    let mut sel: Vec<u32> = (0..6).collect();
    gt2(&mut sel, &plain);
    assert_eq!(sel, [2, 3, 4, 5], "whole block, no nulls");

    let mut sel = vec![1, 3, 5];
    gt2(&mut sel, &plain);
    assert_eq!(sel, [3, 5], "already narrowed by an earlier term");

    let mut sel: Vec<u32> = (0..6).collect();
    gt2(&mut sel, &holed);
    assert_eq!(sel, [2, 3, 5], "a null is not a match, whole block");

    let mut sel = vec![1, 3, 4];
    gt2(&mut sel, &holed);
    assert_eq!(sel, [3], "a null is not a match, narrowed");

    let mut sel: Vec<u32> = Vec::new();
    gt2(&mut sel, &plain);
    assert!(sel.is_empty());

    // A refusal writes nothing.
    let mut sel: Vec<u32> = (0..6).collect();
    assert!(!field_filter(&mut sel, &plain, Op::Eq, &text("beta"), &f));
    assert_eq!(sel.len(), 6);

    // A number against a dictionary column is a refusal rather than a miss.
    let dict = column(Data::Dict16(vec![0, 1], strings(&["warn", "info"])));
    let mut sel: Vec<u32> = (0..2).collect();
    assert!(!field_filter(&mut sel, &dict, Op::Eq, &Value::Int(2), &f));
    assert_eq!(sel.len(), 2);
}

#[test]
fn an_attribute_table_out_of_parent_order_falls_back_to_the_scan() {
    let table = |parents: &[u32]| {
        let mut b = AttrsBuilder::new("t.key");
        for &p in parents {
            b.append(p, "k", None).unwrap();
        }
        let t = b.finish().unwrap();
        match &t.fields[0].column.data {
            Data::U32(v) => assert_eq!(v, parents),
            _ => panic!("not the parents"),
        }
        t
    };

    let t = table(&[0, 0, 1, 3, 3]);
    let ordered = Attrs::new(&t);
    assert!(ordered.ordered);
    assert_eq!(ordered.run(0), (0, 2));
    assert_eq!(ordered.run(1), (2, 3));
    // A parent with no attributes of its own, and one past the end.
    assert_eq!(ordered.run(2), (3, 3));
    assert_eq!(ordered.run(9), (5, 5));

    let t = table(&[3, 0, 1, 0, 3]);
    let jumbled = Attrs::new(&t);
    assert!(!jumbled.ordered);
    // The whole table, which the caller still filters row by row.
    assert_eq!(jumbled.run(0), (0, 5));

    let t = table(&[]);
    assert_eq!(Attrs::new(&t).run(0), (0, 0));
}

#[test]
fn a_cursor_reads_back_as_itself() {
    let c = Cursor { ts: -5, node: 0xab, seq: 7, row: 9 };
    let s = c.to_text();
    assert_eq!(Cursor::from_text(&s).ok(), Some(c));
    for bad in [
        "", "1", "1.2.3", "x.1.2.3", "1-2-3-4-5", "+1.2.3.4", "1.+2.3.4", "1.2.3.+4", "1.-2.3.4",
        "--1.2.3.4", "-.2.3.4", ".2.3.4", "1_000.2.3.4", "1.2.3.4.5",
    ] {
        assert!(Cursor::from_text(bad).is_err(), "{bad}");
    }
}

#[test]
fn cursors_order_newest_first_and_are_total() {
    let at = |ts: i64, node: u32, seq: u64, row: u32| Cursor { ts, node, seq, row };
    let newer = at(9, 0, 0, 0);
    let older = at(8, 9, 9, 9);
    assert!(newer.before(&older) && !older.before(&newer));
    assert!(!newer.before(&newer));
    let ties = [at(5, 0, 0, 0), at(5, 0, 0, 1), at(5, 0, 1, 0), at(5, 1, 0, 0)];
    for a in &ties {
        for b in &ties {
            assert_eq!(a == b, !a.before(b) && !b.before(a));
        }
    }
}

#[test]
fn signals_know_their_tables() {
    assert_eq!(Signal::parse("logs"), Some(Signal::Logs));
    assert_eq!(Signal::parse("traces"), Some(Signal::Traces));
    assert_eq!(Signal::parse("Logs"), None);
    assert_eq!(Signal::Logs.dir(), "logs");
    assert_eq!(Signal::Traces.root(), "spans");
    assert_eq!(Signal::Logs.attrs(), "log_attrs");
    assert_eq!(Signal::Traces.time_col(), "start_time_unix_nano");
}

/// The nearest double of an integer is what the hardware says it is.
#[test]
fn integers_become_the_nearest_double() {
    for i in [
        0i64,
        1,
        -1,
        3,
        1 << 52,
        (1 << 53) - 1,
        1 << 53,
        (1 << 53) + 1,
        (1 << 53) + 2,
        (1 << 53) + 3,
        (1 << 54) + 2,
        (1 << 54) + 6,
        i64::MAX,
        i64::MAX - 1,
        i64::MIN,
        i64::MIN + 1,
        -(1 << 60) - 12345,
    ] {
        assert_eq!(double_of(i), (i as f64).to_bits(), "{i}");
    }
    assert_eq!(to_whole(9.0f64.to_bits()), Some(9));
    assert_eq!(to_whole((-0.0f64).to_bits()), Some(0));
    assert_eq!(to_whole(1e300f64.to_bits()), Some(i64::MAX));
    assert_eq!(to_whole((-1e300f64).to_bits()), Some(i64::MIN));
    assert_eq!(to_whole(0.25f64.to_bits()), None);
    assert_eq!(to_whole(f64::NAN.to_bits()), None);
    assert_eq!(to_whole(f64::INFINITY.to_bits()), None);
}

/// A scalar is spelled the way an attribute of its value was indexed.
#[test]
fn a_scalar_has_one_spelling() {
    let f = floats();
    assert_eq!(canon(&Value::Int(503), &f), "503");
    assert_eq!(canon(&double(3.0), &f), "3");
    assert_eq!(canon(&Value::Bool(true), &f), "true");
    assert_eq!(canon(&text("checkout"), &f), "checkout");
}

/// An unsigned number past the middle of its range is still a large one.
#[test]
fn a_large_unsigned_number_is_not_a_negative_one() {
    let c = column(Data::U64(vec![u64::MAX, 5, 1 << 63, 0]));
    assert_eq!(hits(&c, Op::Gt, &Value::Int(0)), [0, 1, 2]);
    assert_eq!(hits(&c, Op::Lt, &Value::Int(0)), []);
    assert_eq!(hits(&c, Op::Gt, &Value::Int(-1)), [0, 1, 2, 3]);
    assert_eq!(hits(&c, Op::Eq, &Value::Int(-1)), []);
    assert_eq!(hits(&c, Op::Eq, &Value::Int(i64::MIN)), []);
    assert_eq!(hits(&c, Op::Gt, &Value::Int(i64::MAX)), [0, 2]);
    assert_eq!(hits(&c, Op::Eq, &Value::Int(5)), [1]);
}
