use mira_core::float::Floats;
use mira_core::json::Json;

fn floats(vs: &[f64]) -> Floats {
    let mut f = Floats::new();
    for v in vs {
        f.add_text(v.to_bits(), &format!("{v}"));
    }
    f
}

/// Nesting, comma placement and the escapes a hostile string can carry.
#[test]
fn nesting_commas_and_hostile_strings() {
    let f = floats(&[0.5, 3.0]);
    let mut j = Json::new();
    j.obj(|j| {
        j.key("rows");
        j.arr(|j| {
            j.obj(|j| {
                j.key("body");
                j.str("line1\nline2\t\"quoted\"\\ \u{1}");
                j.key("trace_id");
                j.hex(&[0x4b, 0xf9, 0x2f]);
            });
            j.obj(|j| {
                j.key("n");
                j.i64(-17);
                j.key("big");
                j.i64_str(-1_000_000_000_000_000_001);
                j.key("ubig");
                j.u64_str(u64::MAX);
            });
        });
        j.key("nan");
        j.double(f64::NAN.to_bits(), &f);
        j.key("ratio");
        j.double(0.5f64.to_bits(), &f);
        j.key("whole");
        j.double(3.0f64.to_bits(), &f);
        j.key("empty");
        j.arr(|_| {});
    });
    assert_eq!(
        j.into_string(),
        r#"{"rows":[{"body":"line1\nline2\t\"quoted\"\\ \u0001","trace_id":"4bf92f"},{"n":-17,"big":"-1000000000000000001","ubig":"18446744073709551615"}],"nan":null,"ratio":0.5,"whole":3,"empty":[]}"#
    );
}

#[test]
fn an_empty_fragment_is_invisible_and_every_named_escape_is_named() {
    let mut j = Json::default();
    j.obj(|j| {
        j.key("body");
        // 0x1f is the last character that has to be escaped.
        j.str("\u{08}\u{0c}\r\n\t\u{1f} ");
        j.raw("");
        j.raw(r#""a":1"#);
        j.raw("");
        j.raw(r#""b":2"#);
    });
    assert_eq!(
        j.into_string(),
        "{\"body\":\"\\b\\f\\r\\n\\t\\u001f \",\"a\":1,\"b\":2}"
    );
}

#[test]
fn no_finite_double_is_written_with_a_trailing_point_zero() {
    let all = [3.0f64, -0.0, 1e20, 1e-7, f64::MAX, f64::MIN_POSITIVE, 0.5];
    let f = floats(&all);
    for v in all {
        let mut j = Json::new();
        j.double(v.to_bits(), &f);
        let s = j.into_string();
        assert!(!s.ends_with(".0"), "{v:?} rendered as {s}");
        assert_eq!(s.parse::<f64>().expect("round trips"), v);
    }
}

#[test]
fn an_infinite_double_and_one_without_a_text_are_null() {
    let f = floats(&[f64::INFINITY]);
    for v in [f64::INFINITY, f64::NEG_INFINITY, 2.25] {
        let mut j = Json::new();
        j.double(v.to_bits(), &f);
        assert_eq!(j.into_string(), "null");
    }
}

#[test]
fn booleans_nulls_and_numbers_take_their_commas() {
    let mut j = Json::new();
    j.arr(|j| {
        j.bool(true);
        j.bool(false);
        j.null();
        j.i64(i64::MIN);
        j.u64(u64::MAX);
        j.u64(0);
        j.hex(&[]);
        j.str("");
    });
    assert_eq!(
        j.into_string(),
        r#"[true,false,null,-9223372036854775808,18446744073709551615,0,"",""]"#
    );
}

/// What is outside the escapes passes through as it is, in any script.
#[test]
fn other_characters_are_written_as_they_are() {
    let mut j = Json::new();
    j.str("caf\u{e9} \u{1f600} / \u{7f}");
    assert_eq!(j.into_string(), "\"caf\u{e9} \u{1f600} / \u{7f}\"");
}
