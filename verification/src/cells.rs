//! What stands in a cell of a table, read by the name of its column.

use crate::attrs::{attrs_table_of, AttrRow};
use crate::otlp::{Pair, Val};
use crate::proto::any_bytes;
use crate::readback::{lemma_found_field, lemma_found_table};
use crate::scan::{table_named, Named};
use crate::table::{Data, Table};
use vstd::prelude::*;

verus! {

// ---------------------------------------------------------------------------
// Cells that are always there.

/// The cell is this number, of 8 bits.
pub open spec fn u8_at(t: Table, name: Seq<char>, row: int, x: int) -> bool {
    &&& t.named(name) matches Some(c)
    &&& c.holds(row)
    &&& c.data matches Data::U8(v)
    &&& v@[row] == x
}

/// The cell is this number, of 16 bits.
pub open spec fn u16_at(t: Table, name: Seq<char>, row: int, x: int) -> bool {
    &&& t.named(name) matches Some(c)
    &&& c.holds(row)
    &&& c.data matches Data::U16(v)
    &&& v@[row] == x
}

/// The cell is this number, of 32 bits.
pub open spec fn u32_at(t: Table, name: Seq<char>, row: int, x: int) -> bool {
    &&& t.named(name) matches Some(c)
    &&& c.holds(row)
    &&& c.data matches Data::U32(v)
    &&& v@[row] == x
}

/// The cell is this number, of 64 bits.
pub open spec fn u64_at(t: Table, name: Seq<char>, row: int, x: int) -> bool {
    &&& t.named(name) matches Some(c)
    &&& c.holds(row)
    &&& c.data matches Data::U64(v)
    &&& v@[row] == x
}

/// The cell is this signed number, of 32 bits.
pub open spec fn i32_at(t: Table, name: Seq<char>, row: int, x: int) -> bool {
    &&& t.named(name) matches Some(c)
    &&& c.holds(row)
    &&& c.data matches Data::I32(v)
    &&& v@[row] == x
}

/// The cell is this moment.
pub open spec fn time_at(t: Table, name: Seq<char>, row: int, x: int) -> bool {
    &&& t.named(name) matches Some(c)
    &&& c.holds(row)
    &&& c.data matches Data::Time(v)
    &&& v@[row] == x
}

/// The cell is this truth value.
pub open spec fn bool_at(t: Table, name: Seq<char>, row: int, x: bool) -> bool {
    &&& t.named(name) matches Some(c)
    &&& c.holds(row)
    &&& c.data matches Data::Bool(v)
    &&& v@[row] == x
}

/// A double, by its bits.
pub open spec fn double_at(t: Table, name: Seq<char>, row: int, bits: u64) -> bool {
    &&& t.named(name) matches Some(c)
    &&& c.holds(row)
    &&& c.data matches Data::Double(v)
    &&& v@[row] == bits
}

// ---------------------------------------------------------------------------
// Cells that may be null.

/// The cell is null.
pub open spec fn null_at(t: Table, name: Seq<char>, row: int) -> bool {
    t.named(name) matches Some(c) && !c.holds(row)
}

/// The cell is this moment, or null where there is none.
pub open spec fn maybe_time_at(t: Table, name: Seq<char>, row: int, x: Option<i64>) -> bool {
    match x {
        Some(x) => time_at(t, name, row, x as int),
        None => null_at(t, name, row),
    }
}

/// The cell is this number, or null where there is none.
pub open spec fn maybe_u32_at(t: Table, name: Seq<char>, row: int, x: Option<u32>) -> bool {
    match x {
        Some(x) => u32_at(t, name, row, x as int),
        None => null_at(t, name, row),
    }
}

/// The cell is this double, or null where there is none.
pub open spec fn maybe_double_at(t: Table, name: Seq<char>, row: int, x: Option<u64>) -> bool {
    match x {
        Some(x) => double_at(t, name, row, x),
        None => null_at(t, name, row),
    }
}

/// The cell is this signed number, of 64 bits.
pub open spec fn int_at(t: Table, name: Seq<char>, row: int, x: i64) -> bool {
    &&& t.named(name) matches Some(c)
    &&& c.holds(row)
    &&& c.data matches Data::I64(v)
    &&& v@[row] == x
}

/// The cell is this signed number, or null where there is none.
pub open spec fn maybe_int_at(t: Table, name: Seq<char>, row: int, x: Option<i64>) -> bool {
    match x {
        Some(x) => int_at(t, name, row, x),
        None => null_at(t, name, row),
    }
}

/// Bytes of one width.
pub open spec fn fixed_at(t: Table, name: Seq<char>, row: int, x: Seq<u8>) -> bool {
    &&& t.named(name) matches Some(c)
    &&& c.holds(row)
    &&& c.data matches Data::Fixed(v)
    &&& v@[row]@ == x
}

/// The cell is these bytes of a fixed width, or null where there are none.
pub open spec fn maybe_fixed_at(t: Table, name: Seq<char>, row: int, x: Option<Seq<u8>>) -> bool {
    match x {
        Some(x) => fixed_at(t, name, row, x),
        None => null_at(t, name, row),
    }
}

/// The cell is these bytes.
pub open spec fn bytes_at(t: Table, name: Seq<char>, row: int, x: Seq<u8>) -> bool {
    &&& t.named(name) matches Some(c)
    &&& c.holds(row)
    &&& c.data matches Data::Binary(v)
    &&& v@[row]@ == x
}

/// The cell is these bytes, or null where there are none.
pub open spec fn maybe_bytes_at(t: Table, name: Seq<char>, row: int, x: Option<Seq<u8>>) -> bool {
    match x {
        Some(x) => bytes_at(t, name, row, x),
        None => null_at(t, name, row),
    }
}

/// The cell is this text.
pub open spec fn text_at(t: Table, name: Seq<char>, row: int, x: Seq<char>) -> bool {
    &&& t.named(name) matches Some(c)
    &&& c.holds(row)
    &&& c.data matches Data::Text(v)
    &&& v@[row]@ == x
}

/// The cell is this text, or null where there is none.
pub open spec fn maybe_text_at(t: Table, name: Seq<char>, row: int, x: Option<Seq<char>>) -> bool {
    match x {
        Some(x) => text_at(t, name, row, x),
        None => null_at(t, name, row),
    }
}

/// A text of a dictionary column: the empty one is null.
pub open spec fn entry_at(t: Table, name: Seq<char>, row: int, x: Seq<char>) -> bool {
    &&& t.named(name) matches Some(c)
    &&& c.holds(row) <==> x.len() > 0
    &&& c.data matches Data::Dict16(k, d)
    &&& x.len() > 0 ==> k@[row] < d@.len() && d@[k@[row] as int]@ == x
}

/// A list of numbers.
pub open spec fn numbers_at(t: Table, name: Seq<char>, row: int, x: Seq<u64>) -> bool {
    &&& t.named(name) matches Some(c)
    &&& c.holds(row)
    &&& c.data matches Data::List(v)
    &&& v@[row].valid is None
    &&& v@[row].data matches Data::U64(w)
    &&& w@ == x
}

/// The cell is this list of numbers, or null where there is none.
pub open spec fn maybe_numbers_at(t: Table, name: Seq<char>, row: int, x: Option<Seq<u64>>) -> bool {
    match x {
        Some(x) => numbers_at(t, name, row, x),
        None => null_at(t, name, row),
    }
}

/// A list of doubles, by their bits.
pub open spec fn doubles_at(t: Table, name: Seq<char>, row: int, x: Seq<u64>) -> bool {
    &&& t.named(name) matches Some(c)
    &&& c.holds(row)
    &&& c.data matches Data::List(v)
    &&& v@[row].valid is None
    &&& v@[row].data matches Data::Double(w)
    &&& w@ == x
}

// ---------------------------------------------------------------------------
// Attributes.

/// The parent of an attribute row.
pub open spec fn parent_at(t: Table, row: int, parent: int) -> bool {
    &&& t.named("parent_id"@) matches Some(c)
    &&& c.data matches Data::U32(v)
    &&& v@[row] == parent
}

/// The number of the type of an attribute row.
pub open spec fn type_at(t: Table, row: int, number: int) -> bool {
    &&& t.named("type"@) matches Some(c)
    &&& c.data matches Data::U8(v)
    &&& v@[row] == number
}

/// The key of an attribute row.
pub open spec fn key_at(t: Table, row: int, key: Seq<char>) -> bool {
    &&& t.named("key"@) matches Some(c)
    &&& c.data matches Data::Dict16(k, d)
    &&& k@[row] < d@.len()
    &&& d@[k@[row] as int]@ == key
}

/// The text of an attribute row.
pub open spec fn str_at(t: Table, row: int, s: Seq<char>) -> bool {
    &&& t.named("str"@) matches Some(c)
    &&& c.holds(row)
    &&& c.data matches Data::Dict32(k, d)
    &&& k@[row] < d@.len()
    &&& d@[k@[row] as int]@ == s
}

/// All value columns but one of an attribute row are null.
pub open spec fn only_at(t: Table, row: int, name: Seq<char>) -> bool {
    &&& name != "str"@ ==> null_at(t, "str"@, row)
    &&& name != "int"@ ==> null_at(t, "int"@, row)
    &&& name != "double"@ ==> null_at(t, "double"@, row)
    &&& name != "bool"@ ==> null_at(t, "bool"@, row)
    &&& name != "bytes"@ ==> null_at(t, "bytes"@, row)
    &&& name != "ser"@ ==> null_at(t, "ser"@, row)
}

/// An attribute stands in a row: under its parent, by its key, with its type,
/// and with its value in the column of that type.
pub open spec fn attr_at(t: Table, row: int, parent: int, kv: Pair) -> bool {
    &&& 0 <= row < t.rows
    &&& parent_at(t, row, parent)
    &&& key_at(t, row, kv.key)
    &&& match kv.value {
        None => type_at(t, row, 0) && only_at(t, row, ""@),
        Some(Val::Empty) => type_at(t, row, 0) && only_at(t, row, ""@),
        Some(Val::Str(s)) => type_at(t, row, 1) && str_at(t, row, s) && only_at(
            t,
            row,
            "str"@,
        ),
        Some(Val::Int(i)) => type_at(t, row, 2) && int_at(t, "int"@, row, i) && only_at(
            t,
            row,
            "int"@,
        ),
        Some(Val::Double(d)) => type_at(t, row, 3) && double_at(t, "double"@, row, d)
            && only_at(t, row, "double"@),
        Some(Val::Bool(b)) => type_at(t, row, 4) && bool_at(t, "bool"@, row, b) && only_at(
            t,
            row,
            "bool"@,
        ),
        Some(Val::Bytes(b)) => type_at(t, row, 5) && bytes_at(t, "bytes"@, row, b)
            && only_at(t, row, "bytes"@),
        Some(Val::Array(v)) => type_at(t, row, 6) && bytes_at(
            t,
            "ser"@,
            row,
            any_bytes(Val::Array(v)),
        ) && only_at(t, row, "ser"@),
        Some(Val::Kvlist(v)) => type_at(t, row, 7) && bytes_at(
            t,
            "ser"@,
            row,
            any_bytes(Val::Kvlist(v)),
        ) && only_at(t, row, "ser"@),
    }
}

/// A table of a block has the attribute under the parent.
pub open spec fn has_attr(tables: Seq<Named>, name: Seq<char>, parent: int, kv: Pair) -> bool {
    &&& table_named(tables, name) matches Some(t)
    &&& exists|row: int| #[trigger] attr_at(t, row, parent, kv)
}

// ---------------------------------------------------------------------------
// Names.

/// The columns of a table of number points.
pub open spec fn number_names() -> Seq<Seq<char>> {
    seq![
        "id"@,
        "metric_id"@,
        "start_time_unix_nano"@,
        "time_unix_nano"@,
        "flags"@,
        "int"@,
        "double"@,
    ]
}

pub proof fn lemma_number_names()
    ensures
        number_names().no_duplicates(),
{
    reveal_strlit("id");
    reveal_strlit("metric_id");
    reveal_strlit("start_time_unix_nano");
    reveal_strlit("time_unix_nano");
    reveal_strlit("flags");
    reveal_strlit("int");
    reveal_strlit("double");
    let s = number_names();
    assert forall|i: int, j: int| 0 <= i < j < s.len() implies s[i] != s[j] by {
        assert(s[i].len() != s[j].len());
    }
}

/// The columns of a table of histogram points.
pub open spec fn hist_names() -> Seq<Seq<char>> {
    seq![
        "id"@,
        "metric_id"@,
        "start_time_unix_nano"@,
        "time_unix_nano"@,
        "flags"@,
        "count"@,
        "sum"@,
        "min"@,
        "max"@,
        "bucket_counts"@,
        "bounds_id"@,
    ]
}

pub proof fn lemma_hist_names()
    ensures
        hist_names().no_duplicates(),
{
    reveal_strlit("id");
    reveal_strlit("metric_id");
    reveal_strlit("start_time_unix_nano");
    reveal_strlit("time_unix_nano");
    reveal_strlit("flags");
    reveal_strlit("count");
    reveal_strlit("sum");
    reveal_strlit("min");
    reveal_strlit("max");
    reveal_strlit("bucket_counts");
    reveal_strlit("bounds_id");
    assert("metric_id"@[1] == 'e');
    assert("bounds_id"@[1] == 'o');
    assert("flags"@[1] == 'l');
    assert("count"@[1] == 'o');
    assert("sum"@[1] == 'u');
    assert("min"@[1] == 'i');
    assert("max"@[1] == 'a');
    let s = hist_names();
    assert forall|i: int, j: int| 0 <= i < j < s.len() implies s[i] != s[j] by {
        assert(s[i].len() != s[j].len() || s[i][1] != s[j][1]);
    }
}

/// The columns of a table of points of exponential histograms.
pub open spec fn exp_names() -> Seq<Seq<char>> {
    seq![
        "id"@,
        "metric_id"@,
        "start_time_unix_nano"@,
        "time_unix_nano"@,
        "flags"@,
        "count"@,
        "sum"@,
        "min"@,
        "max"@,
        "scale"@,
        "zero_count"@,
        "zero_threshold"@,
        "positive_offset"@,
        "positive_counts"@,
        "negative_offset"@,
        "negative_counts"@,
    ]
}

pub proof fn lemma_exp_names()
    ensures
        exp_names().no_duplicates(),
{
    reveal_strlit("id");
    reveal_strlit("metric_id");
    reveal_strlit("start_time_unix_nano");
    reveal_strlit("time_unix_nano");
    reveal_strlit("flags");
    reveal_strlit("count");
    reveal_strlit("sum");
    reveal_strlit("min");
    reveal_strlit("max");
    reveal_strlit("scale");
    reveal_strlit("zero_count");
    reveal_strlit("zero_threshold");
    reveal_strlit("positive_offset");
    reveal_strlit("positive_counts");
    reveal_strlit("negative_offset");
    reveal_strlit("negative_counts");
    assert("time_unix_nano"@[1] == 'i');
    assert("time_unix_nano"@[9] == '_');
    assert("zero_threshold"@[1] == 'e');
    assert("zero_threshold"@[9] == 's');
    assert("flags"@[1] == 'l');
    assert("count"@[1] == 'o');
    assert("scale"@[1] == 'c');
    assert("sum"@[1] == 'u');
    assert("min"@[1] == 'i');
    assert("max"@[1] == 'a');
    assert("positive_offset"@[1] == 'o');
    assert("positive_offset"@[9] == 'o');
    assert("positive_counts"@[1] == 'o');
    assert("positive_counts"@[9] == 'c');
    assert("negative_offset"@[1] == 'e');
    assert("negative_offset"@[9] == 'o');
    assert("negative_counts"@[1] == 'e');
    assert("negative_counts"@[9] == 'c');
    let s = exp_names();
    assert forall|i: int, j: int| 0 <= i < j < s.len() implies s[i] != s[j] by {
        assert(s[i].len() != s[j].len() || s[i][1] != s[j][1] || s[i][9] != s[j][9]);
    }
}

/// The columns of a table of summary points.
pub open spec fn summary_names() -> Seq<Seq<char>> {
    seq![
        "id"@,
        "metric_id"@,
        "start_time_unix_nano"@,
        "time_unix_nano"@,
        "flags"@,
        "count"@,
        "sum"@,
        "quantile"@,
        "value"@,
    ]
}

pub proof fn lemma_summary_names()
    ensures
        summary_names().no_duplicates(),
{
    reveal_strlit("id");
    reveal_strlit("metric_id");
    reveal_strlit("start_time_unix_nano");
    reveal_strlit("time_unix_nano");
    reveal_strlit("flags");
    reveal_strlit("count");
    reveal_strlit("sum");
    reveal_strlit("quantile");
    reveal_strlit("value");
    assert("flags"@[0] == 'f');
    assert("count"@[0] == 'c');
    assert("value"@[0] == 'v');
    let s = summary_names();
    assert forall|i: int, j: int| 0 <= i < j < s.len() implies s[i] != s[j] by {
        assert(s[i].len() != s[j].len() || s[i][0] != s[j][0]);
    }
}

/// The columns of a table of exemplars.
pub open spec fn exemplar_names() -> Seq<Seq<char>> {
    seq![
        "id"@,
        "parent_id"@,
        "time_unix_nano"@,
        "int"@,
        "double"@,
        "trace_id"@,
        "span_id"@,
    ]
}

pub proof fn lemma_exemplar_names()
    ensures
        exemplar_names().no_duplicates(),
{
    reveal_strlit("id");
    reveal_strlit("parent_id");
    reveal_strlit("time_unix_nano");
    reveal_strlit("int");
    reveal_strlit("double");
    reveal_strlit("trace_id");
    reveal_strlit("span_id");
    let s = exemplar_names();
    assert forall|i: int, j: int| 0 <= i < j < s.len() implies s[i] != s[j] by {
        assert(s[i].len() != s[j].len());
    }
}

/// The columns of the table of metrics.
pub open spec fn descriptor_names() -> Seq<Seq<char>> {
    seq![
        "id"@,
        "name"@,
        "description"@,
        "unit"@,
        "kind"@,
        "temporality"@,
        "is_monotonic"@,
        "resource_id"@,
        "scope_id"@,
    ]
}

pub proof fn lemma_descriptor_names()
    ensures
        descriptor_names().no_duplicates(),
{
    reveal_strlit("id");
    reveal_strlit("name");
    reveal_strlit("description");
    reveal_strlit("unit");
    reveal_strlit("kind");
    reveal_strlit("temporality");
    reveal_strlit("is_monotonic");
    reveal_strlit("resource_id");
    reveal_strlit("scope_id");
    assert("name"@[0] == 'n');
    assert("unit"@[0] == 'u');
    assert("kind"@[0] == 'k');
    assert("description"@[0] == 'd');
    assert("temporality"@[0] == 't');
    assert("resource_id"@[0] == 'r');
    let s = descriptor_names();
    assert forall|i: int, j: int| 0 <= i < j < s.len() implies s[i] != s[j] by {
        assert(s[i].len() != s[j].len() || s[i][0] != s[j][0]);
    }
}

/// The columns of the table of log records.
pub open spec fn record_names() -> Seq<Seq<char>> {
    seq![
        "id"@,
        "time_unix_nano"@,
        "observed_time_unix_nano"@,
        "severity_number"@,
        "severity_text"@,
        "event_name"@,
        "body"@,
        "body_ser"@,
        "trace_id"@,
        "span_id"@,
        "flags"@,
        "dropped_attributes_count"@,
        "resource_id"@,
        "scope_id"@,
    ]
}

pub proof fn lemma_record_names()
    ensures
        record_names().no_duplicates(),
{
    reveal_strlit("id");
    reveal_strlit("time_unix_nano");
    reveal_strlit("observed_time_unix_nano");
    reveal_strlit("severity_number");
    reveal_strlit("severity_text");
    reveal_strlit("event_name");
    reveal_strlit("body");
    reveal_strlit("body_ser");
    reveal_strlit("trace_id");
    reveal_strlit("span_id");
    reveal_strlit("flags");
    reveal_strlit("dropped_attributes_count");
    reveal_strlit("resource_id");
    reveal_strlit("scope_id");
    assert("body_ser"@[0] == 'b');
    assert("trace_id"@[0] == 't');
    assert("scope_id"@[0] == 's');
    let s = record_names();
    assert forall|i: int, j: int| 0 <= i < j < s.len() implies s[i] != s[j] by {
        assert(s[i].len() != s[j].len() || s[i][0] != s[j][0]);
    }
}

/// The columns of a table of attributes.
pub open spec fn attribute_names() -> Seq<Seq<char>> {
    seq![
        "parent_id"@,
        "key"@,
        "type"@,
        "str"@,
        "int"@,
        "double"@,
        "bool"@,
        "bytes"@,
        "ser"@,
    ]
}

pub proof fn lemma_attribute_names()
    ensures
        attribute_names().no_duplicates(),
{
    reveal_strlit("parent_id");
    reveal_strlit("key");
    reveal_strlit("type");
    reveal_strlit("str");
    reveal_strlit("int");
    reveal_strlit("double");
    reveal_strlit("bool");
    reveal_strlit("bytes");
    reveal_strlit("ser");
    assert("key"@[0] == 'k');
    assert("key"@[1] == 'e');
    assert("str"@[0] == 's');
    assert("str"@[1] == 't');
    assert("int"@[0] == 'i');
    assert("int"@[1] == 'n');
    assert("ser"@[0] == 's');
    assert("ser"@[1] == 'e');
    assert("type"@[0] == 't');
    assert("type"@[1] == 'y');
    assert("bool"@[0] == 'b');
    assert("bool"@[1] == 'o');
    let s = attribute_names();
    assert forall|i: int, j: int| 0 <= i < j < s.len() implies s[i] != s[j] by {
        assert(s[i].len() != s[j].len() || s[i][0] != s[j][0] || s[i][1] != s[j][1]);
    }
}

/// The columns of the table of resources.
pub open spec fn resource_names() -> Seq<Seq<char>> {
    seq![
        "id"@,
        "key"@,
        "dropped_attributes_count"@,
    ]
}

pub proof fn lemma_resource_names()
    ensures
        resource_names().no_duplicates(),
{
    reveal_strlit("id");
    reveal_strlit("key");
    reveal_strlit("dropped_attributes_count");
    let s = resource_names();
    assert forall|i: int, j: int| 0 <= i < j < s.len() implies s[i] != s[j] by {
        assert(s[i].len() != s[j].len());
    }
}

/// The columns of the table of bucket bounds.
pub open spec fn bounds_names() -> Seq<Seq<char>> {
    seq![
        "id"@,
        "bounds"@,
    ]
}

pub proof fn lemma_bounds_names()
    ensures
        bounds_names().no_duplicates(),
{
    reveal_strlit("id");
    reveal_strlit("bounds");
    let s = bounds_names();
    assert forall|i: int, j: int| 0 <= i < j < s.len() implies s[i] != s[j] by {
        assert(s[i].len() != s[j].len());
    }
}

/// The tables of a metrics block.
pub open spec fn metric_table_names() -> Seq<Seq<char>> {
    seq![
        "metrics"@,
        "metric_attrs"@,
        "number_dp"@,
        "hist_dp"@,
        "hist_bounds"@,
        "exp_hist_dp"@,
        "summary_dp"@,
        "dp_attrs"@,
        "exemplars"@,
        "exemplar_attrs"@,
        "resources"@,
        "resource_attrs"@,
        "scope_attrs"@,
    ]
}

pub proof fn lemma_metric_table_names()
    ensures
        metric_table_names().no_duplicates(),
{
    reveal_strlit("metrics");
    reveal_strlit("metric_attrs");
    reveal_strlit("number_dp");
    reveal_strlit("hist_dp");
    reveal_strlit("hist_bounds");
    reveal_strlit("exp_hist_dp");
    reveal_strlit("summary_dp");
    reveal_strlit("dp_attrs");
    reveal_strlit("exemplars");
    reveal_strlit("exemplar_attrs");
    reveal_strlit("resources");
    reveal_strlit("resource_attrs");
    reveal_strlit("scope_attrs");
    assert("metrics"@[0] == 'm');
    assert("hist_dp"@[0] == 'h');
    assert("number_dp"@[0] == 'n');
    assert("exemplars"@[0] == 'e');
    assert("resources"@[0] == 'r');
    assert("hist_bounds"@[0] == 'h');
    assert("exp_hist_dp"@[0] == 'e');
    assert("scope_attrs"@[0] == 's');
    assert("exemplar_attrs"@[0] == 'e');
    assert("resource_attrs"@[0] == 'r');
    let s = metric_table_names();
    assert forall|i: int, j: int| 0 <= i < j < s.len() implies s[i] != s[j] by {
        assert(s[i].len() != s[j].len() || s[i][0] != s[j][0]);
    }
}

/// The tables of a logs block.
pub open spec fn log_table_names() -> Seq<Seq<char>> {
    seq![
        "logs"@,
        "log_attrs"@,
        "resources"@,
        "resource_attrs"@,
        "scope_attrs"@,
    ]
}

pub proof fn lemma_log_table_names()
    ensures
        log_table_names().no_duplicates(),
{
    reveal_strlit("logs");
    reveal_strlit("log_attrs");
    reveal_strlit("resources");
    reveal_strlit("resource_attrs");
    reveal_strlit("scope_attrs");
    assert("log_attrs"@[0] == 'l');
    assert("resources"@[0] == 'r');
    let s = log_table_names();
    assert forall|i: int, j: int| 0 <= i < j < s.len() implies s[i] != s[j] by {
        assert(s[i].len() != s[j].len() || s[i][0] != s[j][0]);
    }
}


/// Columns whose names all differ are found by them.
pub proof fn lemma_columns(t: Table, names: Seq<Seq<char>>)
    requires
        t.fields@.len() == names.len(),
        forall|i: int| 0 <= i < names.len() ==> (#[trigger] t.fields@[i]).name@ == names[i],
        names.no_duplicates(),
    ensures
        forall|i: int|
            0 <= i < names.len() ==> t.named(#[trigger] names[i]) == Some(t.fields@[i].column),
{
    assert forall|i: int| 0 <= i < names.len() implies t.named(#[trigger] names[i]) == Some(
        t.fields@[i].column,
    ) by {
        let f = t.fields@;
        assert(f[i].name@ == names[i]);
        assert forall|j: int| 0 <= j < i implies (#[trigger] f[j]).name@ != f[i].name@ by {
            assert(names[j] != names[i]);
        }
        lemma_found_field(f, i);
    }
}

/// Tables whose names all differ are found by them.
pub proof fn lemma_tables(tables: Seq<Named>, names: Seq<Seq<char>>)
    requires
        tables.len() == names.len(),
        forall|i: int| 0 <= i < names.len() ==> (#[trigger] tables[i]).name@ == names[i],
        names.no_duplicates(),
    ensures
        forall|i: int|
            0 <= i < names.len() ==> table_named(tables, #[trigger] names[i]) == Some(
                tables[i].table,
            ),
{
    assert forall|i: int| 0 <= i < names.len() implies table_named(tables, #[trigger] names[i])
        == Some(tables[i].table) by {
        assert(tables[i].name@ == names[i]);
        assert forall|j: int| 0 <= j < i implies (#[trigger] tables[j]).name@ != tables[i].name@ by {
            assert(names[j] != names[i]);
        }
        lemma_found_table(tables, i);
    }
}

/// A finished attribute table has its rows in its cells.
pub proof fn lemma_attr_cells(t: Table, rows: Seq<AttrRow>, i: int, parent: int, kv: Pair)
    requires
        attrs_table_of(t, rows),
        0 <= i < rows.len(),
        rows[i].parent == parent,
        rows[i].key == kv.key,
        rows[i].value == (match kv.value {
            Some(v) => v,
            None => Val::Empty,
        }),
    ensures
        attr_at(t, i, parent, kv),
{
    let names = attribute_names();
    lemma_attribute_names();
    assert forall|k: int| 0 <= k < names.len() implies (#[trigger] t.fields@[k]).name@ == names[k] by {
        if k == 0 {
        } else if k == 1 {
        } else if k == 2 {
        } else if k == 3 {
        } else if k == 4 {
        } else if k == 5 {
        } else if k == 6 {
        } else if k == 7 {
        } else {
            assert(k == 8);
        }
    }
    lemma_columns(t, names);
    assert(t.named(names[0]) is Some && t.named(names[1]) is Some && t.named(names[2]) is Some);
    assert(t.named(names[3]) is Some && t.named(names[4]) is Some && t.named(names[5]) is Some);
    assert(t.named(names[6]) is Some && t.named(names[7]) is Some && t.named(names[8]) is Some);
    assert(crate::attrs::attr_row_is(t, i, rows[i]));
    assert(crate::attrfilter::codes_of(t)[i] < crate::attrfilter::names_of(t).len());
}

} // verus!
