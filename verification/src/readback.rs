//! Reading one's own writes: what has been accumulated into a logs block is
//! what a search over the block finds.

use crate::attrfilter::{
    attr_satisfies, carries, codes_of, first_at, key_at, names_of, parents_carrying, parents_of,
    stored_text_satisfies,
};
use crate::attrindex::{has_doubles, law_attribute_pruning_is_sound, listed, listed_upto};
use crate::attrs::{attr_row_is, attrs_table_of, is_attrs_table, keys_in, AttrRow};
use crate::block::BlockRef;
use crate::columns::{firsts, text_views};
use crate::float::{rank_double, Floats};
use crate::frame::{frame_ready, keys_in as resource_keys, placed};
use crate::headroom::is_ranged;
use crate::interning::{interned_tables, resources_table_of, Interned, ResourceRow};
use crate::logs::{logs_columns, logs_sealed_of, logs_table_of, times_in, LogsState};
use crate::metrics::{metrics_sealed_of, metrics_tables, MetricsState};
use crate::opening::block_ready;
use crate::order::rank_of;
use crate::otlp::Val;
use crate::paging::{law_hits_are_the_selected_rows, law_trace_pruning_is_sound};
use crate::probe::{attr_ask, attr_asks, lets_through, needle_of, ranges_upto, Sides};
use crate::query::{Op, Search, Signal, Term, Value};
use crate::scan::{table_named, times_named, u16s_named, u64s_named, Block, Named};
use crate::search::{
    answer_of, covers, cursor_of, is_after, no_sides, planned, wanted, wanted_upto, Hit,
};
use crate::signal::{Open, Sealed, Sidecars};
use crate::sort::lemma_ranked_contains;
use crate::source::{all_sources, law_published_copy_wins, published, Src};
use crate::table::{first_named, Field, Table};
use vstd::prelude::*;

verus! {

// ---------------------------------------------------------------------------
// Names.

pub proof fn lemma_found_field(fields: Seq<Field>, k: int)
    requires
        0 <= k < fields.len(),
        forall|j: int| 0 <= j < k ==> (#[trigger] fields[j]).name@ != fields[k].name@,
    ensures
        first_named(fields, fields[k].name@) == Some(fields[k].column),
    decreases k,
{
    if k > 0 {
        let rest = fields.skip(1);
        assert(fields[0].name@ != fields[k].name@);
        assert forall|j: int| 0 <= j < k - 1 implies (#[trigger] rest[j]).name@ != rest[k - 1].name@ by {
            assert(rest[j] == fields[j + 1]);
        }
        lemma_found_field(rest, k - 1);
    }
}

pub proof fn lemma_found_table(tables: Seq<Named>, k: int)
    requires
        0 <= k < tables.len(),
        forall|j: int| 0 <= j < k ==> (#[trigger] tables[j]).name@ != tables[k].name@,
    ensures
        table_named(tables, tables[k].name@) == Some(tables[k].table),
    decreases k,
{
    if k > 0 {
        let rest = tables.skip(1);
        assert(tables[0].name@ != tables[k].name@);
        assert forall|j: int| 0 <= j < k - 1 implies (#[trigger] rest[j]).name@ != rest[k - 1].name@ by {
            assert(rest[j] == tables[j + 1]);
        }
        lemma_found_table(rest, k - 1);
    }
}

proof fn lemma_no_table(tables: Seq<Named>, name: Seq<char>)
    requires
        forall|j: int| 0 <= j < tables.len() ==> (#[trigger] tables[j]).name@ != name,
    ensures
        table_named(tables, name) is None,
    decreases tables.len(),
{
    if tables.len() > 0 {
        let rest = tables.skip(1);
        assert(tables[0].name@ != name);
        assert forall|j: int| 0 <= j < rest.len() implies (#[trigger] rest[j]).name@ != name by {
            assert(rest[j] == tables[j + 1]);
        }
        lemma_no_table(rest, name);
    }
}

/// Where the tables of a sealed block are.
proof fn lemma_tables(b: Sealed, st: LogsState, sidecars: Sidecars)
    requires
        logs_sealed_of(b, st, sidecars),
    ensures
        table_named(b.tables@, "logs"@) == Some(b.tables@[0].table),
        table_named(b.tables@, "log_attrs"@) == Some(b.tables@[1].table),
        table_named(b.tables@, "resources"@) == Some(b.tables@[2].table),
        table_named(b.tables@, "resource_attrs"@) == Some(b.tables@[3].table),
        table_named(b.tables@, "scope_attrs"@) == Some(b.tables@[4].table),
        table_named(b.tables@, "spans"@) is None,
        resources_table_of(b.tables@[2].table, st.rs.rows),
        attrs_table_of(b.tables@[3].table, st.rs.resource_attrs),
        attrs_table_of(b.tables@[4].table, st.rs.scope_attrs),
{
    let t = b.tables@;
    let v = t.subrange(2, 5);
    assert(interned_tables(v, st.rs));
    assert(v[0] == t[2] && v[1] == t[3] && v[2] == t[4]);
    reveal_strlit("logs");
    reveal_strlit("log_attrs");
    reveal_strlit("resources");
    reveal_strlit("resource_attrs");
    reveal_strlit("scope_attrs");
    reveal_strlit("spans");
    assert("logs"@.len() == 4 && "log_attrs"@.len() == 9 && "resources"@.len() == 9
        && "resource_attrs"@.len() == 14 && "scope_attrs"@.len() == 11 && "spans"@.len() == 5);
    assert("log_attrs"@[0] == 'l' && "resources"@[0] == 'r');
    lemma_found_table(t, 0);
    lemma_found_table(t, 1);
    lemma_found_table(t, 2);
    lemma_found_table(t, 3);
    lemma_found_table(t, 4);
    lemma_no_table(t, "spans"@);
}

/// What a scan reads of the root table by name.
proof fn lemma_root_columns(t: Table, st: LogsState)
    requires
        logs_table_of(t, st),
    ensures
        times_named(t, "time_unix_nano"@) == Some(times_in(st.rows)),
        u16s_named(t, "resource_id"@) == Some(crate::logs::resources_in(st.rows)),
        u16s_named(t, "scope_id"@) == Some(crate::logs::scopes_in(st.rows)),
        t.named("trace_id"@) == Some(t.fields@[8].column),
        forall|i: int|
            0 <= i < t.fields@.len() ==> !((#[trigger] t.fields@[i]).column.data is Dict32),
{
    let f = t.fields@;
    let names = f.map_values(|f: Field| f.name@);
    assert(forall|i: int| 0 <= i < f.len() ==> names[i] == (#[trigger] f[i]).name@);
    assert(names == logs_columns());
    reveal_strlit("id");
    reveal_strlit("time_unix_nano");
    reveal_strlit("observed_time_unix_nano");
    reveal_strlit("severity_number");
    reveal_strlit("severity_text");
    reveal_strlit("event_name");
    reveal_strlit("body");
    reveal_strlit("body_ser");
    reveal_strlit("trace_id");
    reveal_strlit("span_id");
    reveal_strlit("flags");
    reveal_strlit("dropped_attributes_count");
    reveal_strlit("resource_id");
    reveal_strlit("scope_id");
    assert("body_ser"@[0] == 'b' && "trace_id"@[0] == 't' && "scope_id"@[0] == 's');
    assert forall|j: int| 0 <= j < 12 implies (#[trigger] f[j]).name@ != f[12].name@ by {
        assert(names[j] == f[j].name@ && names[12] == f[12].name@);
        assert(names[j].len() != 11);
    }
    assert forall|j: int| 0 <= j < 13 implies (#[trigger] f[j]).name@ != f[13].name@ by {
        assert(names[j] == f[j].name@ && names[13] == f[13].name@);
        assert(names[j].len() != 8 || names[j][0] != 's');
    }
    assert forall|j: int| 0 <= j < 8 implies (#[trigger] f[j]).name@ != f[8].name@ by {
        assert(names[j] == f[j].name@ && names[8] == f[8].name@);
        assert(names[j].len() != 8 || names[j][0] != 't');
    }
    assert(names[0] == f[0].name@ && names[1] == f[1].name@);
    lemma_found_field(f, 1);
    lemma_found_field(f, 8);
    lemma_found_field(f, 12);
    lemma_found_field(f, 13);
    assert forall|i: int| 0 <= i < f.len() implies !((#[trigger] f[i]).column.data is Dict32) by {
        if i == 0 {
        } else if i == 1 {
        } else if i == 2 {
        } else if i == 3 {
        } else if i == 4 {
        } else if i == 5 {
        } else if i == 6 {
        } else if i == 7 {
        } else if i == 8 {
        } else if i == 9 {
        } else if i == 10 {
        } else if i == 11 {
        } else if i == 12 {
        } else {
            assert(i == 13);
        }
    }
}

/// The identities of some resources, by number.
pub open spec fn identities(rows: Seq<ResourceRow>) -> Seq<u64> {
    rows.map_values(|r: ResourceRow| r.key)
}

proof fn lemma_placed_in_order(ids: Seq<u16>, keys: Seq<u64>, slots: nat, n: nat)
    requires
        n <= slots <= ids.len(),
        slots <= keys.len(),
        forall|i: int| 0 <= i < slots ==> (#[trigger] ids[i]) == i,
    ensures
        placed(ids, keys, slots, n).len() == slots,
        forall|i: int| 0 <= i < n ==> (#[trigger] placed(ids, keys, slots, n)[i]) == keys[i],
    decreases n,
{
    if n > 0 {
        lemma_placed_in_order(ids, keys, slots, (n - 1) as nat);
        assert(ids[n - 1] == n - 1);
    }
}

/// What a walk reads of the resource tables.
proof fn lemma_resource_tables(tables: Seq<Named>, st: Interned)
    requires
        table_named(tables, "spans"@) is None,
        table_named(tables, "resources"@) matches Some(r) && resources_table_of(r, st.rows),
        table_named(tables, "resource_attrs"@) matches Some(a) && attrs_table_of(a, st.resource_attrs),
    ensures
        frame_ready(tables),
        resource_keys(tables) == identities(st.rows),
{
    let r = table_named(tables, "resources"@)->0;
    let a = table_named(tables, "resource_attrs"@)->0;
    reveal_strlit("id");
    reveal_strlit("key");
    reveal_strlit("parent_id");
    reveal_strlit("str");
    reveal_strlit("type");
    assert("id"@.len() == 2 && "key"@.len() == 3 && "parent_id"@.len() == 9 && "type"@.len() == 4);
    assert("key"@[0] == 'k' && "str"@[0] == 's');
    lemma_found_field(r.fields@, 0);
    lemma_found_field(r.fields@, 1);
    lemma_found_field(a.fields@, 0);
    lemma_found_field(a.fields@, 3);
    let ids = u16s_named(r, "id"@)->0;
    let keys = u64s_named(r, "key"@)->0;
    assert(r.fields@[0].column.spec_len() == r.rows && r.fields@[1].column.spec_len() == r.rows);
    lemma_placed_in_order(ids, keys, r.rows as nat, r.rows as nat);
    assert(resource_keys(tables) =~= identities(st.rows));
}

/// What has been accumulated into a logs block can be opened as one, by a search
/// and by a walk, as long as a row number can name every row; and what a walk
/// joins on are the identities that its resources were given when they came in.
pub proof fn law_a_logs_block_can_be_read(b: Sealed, st: LogsState, sidecars: Sidecars)
    requires
        logs_sealed_of(b, st, sidecars),
        st.rows.len() < u32::MAX,
    ensures
        table_named(b.tables@, Signal::Logs.root_name()) is Some,
        block_ready(b.tables@, Signal::Logs),
        frame_ready(b.tables@),
        resource_keys(b.tables@) == identities(st.rs.rows),
{
    lemma_tables(b, st, sidecars);
    lemma_root_columns(b.tables@[0].table, st);
    lemma_resource_tables(b.tables@, st.rs);
}

/// What has been accumulated into a metrics block can be walked, and what the
/// walk joins on are the identities that its resources were given when they came
/// in.
pub proof fn law_a_metrics_block_can_be_walked(b: Sealed, st: MetricsState)
    requires
        metrics_sealed_of(b, st),
    ensures
        frame_ready(b.tables@),
        resource_keys(b.tables@) == identities(st.rs.rows),
{
    let t = b.tables@;
    let v = t.subrange(10, 13);
    let names = t.map_values(|n: Named| n.name@);
    assert(interned_tables(v, st.rs));
    assert(v[0] == t[10] && v[1] == t[11]);
    assert(names == metrics_tables());
    assert(forall|i: int| 0 <= i < t.len() ==> names[i] == (#[trigger] t[i]).name@);
    reveal_strlit("metrics");
    reveal_strlit("metric_attrs");
    reveal_strlit("number_dp");
    reveal_strlit("hist_dp");
    reveal_strlit("hist_bounds");
    reveal_strlit("exp_hist_dp");
    reveal_strlit("summary_dp");
    reveal_strlit("dp_attrs");
    reveal_strlit("exemplars");
    reveal_strlit("exemplar_attrs");
    reveal_strlit("resources");
    reveal_strlit("resource_attrs");
    reveal_strlit("scope_attrs");
    reveal_strlit("spans");
    assert("number_dp"@[0] == 'n' && "exemplars"@[0] == 'e' && "resources"@[0] == 'r');
    assert("exemplar_attrs"@[0] == 'e' && "resource_attrs"@[0] == 'r');
    assert forall|j: int| 0 <= j < 10 implies (#[trigger] t[j]).name@ != t[10].name@ by {
        assert(names[j] == t[j].name@ && names[10] == t[10].name@);
        assert(names[j].len() != 9 || names[j][0] != 'r');
    }
    assert forall|j: int| 0 <= j < 11 implies (#[trigger] t[j]).name@ != t[11].name@ by {
        assert(names[j] == t[j].name@ && names[11] == t[11].name@);
        assert(names[j].len() != 14 || names[j][0] != 'r');
    }
    assert forall|j: int| 0 <= j < t.len() implies (#[trigger] t[j]).name@ != "spans"@ by {
        assert(names[j] == t[j].name@);
        assert(names[j].len() != 5);
    }
    lemma_found_table(t, 10);
    lemma_found_table(t, 11);
    lemma_no_table(t, "spans"@);
    lemma_resource_tables(t, st.rs);
}

// ---------------------------------------------------------------------------
// Rows.

/// An opened block has a row for every record that was accumulated, at its time,
/// and a query without terms selects exactly those in its window.
pub proof fn law_what_was_written_is_selected(
    b: Sealed,
    st: LogsState,
    sidecars: Sidecars,
    blk: Block,
    q: Search,
    covered: bool,
    floats: Floats,
    row: int,
)
    requires
        logs_sealed_of(b, st, sidecars),
        blk.is_of(b.tables@, Signal::Logs),
        0 <= row < st.rows.len(),
    ensures
        blk.root.rows == st.rows.len(),
        blk.times() == Some(times_in(st.rows)),
        q.terms@.len() == 0 ==> (blk.selects(row, q, covered, floats) <==> covered || q.from
            <= st.rows[row].time <= q.to),
{
    lemma_tables(b, st, sidecars);
    lemma_root_columns(b.tables@[0].table, st);
    assert(times_in(st.rows)[row] == st.rows[row].time);
}

// ---------------------------------------------------------------------------
// Attributes.

/// Whether the value of an attribute satisfies `op v`. The type it was written
/// with decides how the two are compared; what is neither a text, a number nor
/// a truth value matches nothing.
pub open spec fn value_satisfies(x: Val, op: Op, v: Value, floats: Floats) -> bool {
    match x {
        Val::Str(s) => stored_text_satisfies(s, op, v, floats),
        Val::Int(i) => v.i64_of() matches Some(y) && op.accepts(rank_of(i as int, y)),
        Val::Double(d) => v.double_of(floats) matches Some(y) && rank_double(d, y) matches Some(r)
            && op.accepts(r),
        Val::Bool(t) => v.bool_of() matches Some(y) && op.accepts(
            rank_of(
                if t {
                    1
                } else {
                    0
                },
                if y {
                    1
                } else {
                    0
                },
            ),
        ),
        _ => false,
    }
}

/// Whether one attribute satisfies a term.
pub open spec fn attribute_satisfies(a: AttrRow, key: Seq<char>, op: Op, v: Value, floats: Floats) -> bool {
    a.key == key && value_satisfies(a.value, op, v, floats)
}

/// Whether a parent has an attribute that satisfies a term.
pub open spec fn parent_has(
    rows: Seq<AttrRow>,
    parent: u32,
    key: Seq<char>,
    op: Op,
    v: Value,
    floats: Floats,
) -> bool {
    exists|i: int|
        0 <= i < rows.len() && (#[trigger] rows[i]).parent == parent && attribute_satisfies(
            rows[i],
            key,
            op,
            v,
            floats,
        )
}

proof fn lemma_firsts_distinct(s: Seq<Option<Seq<char>>>)
    ensures
        firsts(s).no_duplicates(),
    decreases s.len(),
{
    if s.len() > 0 {
        lemma_firsts_distinct(s.drop_last());
    }
}

proof fn lemma_first_of(values: Seq<String>, k: int)
    requires
        0 <= k < values.len(),
        text_views(values).no_duplicates(),
    ensures
        first_at(values, values[k]@) == Some(k as nat),
    decreases k,
{
    let views = text_views(values);
    assert(views[0] == values[0]@ && views[k] == values[k]@);
    if k > 0 {
        let rest = values.skip(1);
        assert forall|i: int, j: int| 0 <= i < rest.len() && 0 <= j < rest.len() && i != j implies text_views(
            rest,
        )[i] != text_views(rest)[j] by {
            assert(views[i + 1] != views[j + 1]);
        }
        lemma_first_of(rest, k - 1);
    }
}

proof fn lemma_first_is(values: Seq<String>, needle: Seq<char>)
    ensures
        first_at(values, needle) matches Some(i) ==> i < values.len() && values[i as int]@ == needle,
    decreases values.len(),
{
    if values.len() > 0 {
        lemma_first_is(values.skip(1), needle);
    }
}

proof fn lemma_row_carries(
    t: Table,
    rows: Seq<AttrRow>,
    i: int,
    key: Seq<char>,
    op: Op,
    v: Value,
    floats: Floats,
)
    requires
        attrs_table_of(t, rows),
        0 <= i < rows.len(),
    ensures
        parents_of(t)[i] == rows[i].parent,
        carries(t, i, key, op, v, floats) <==> attribute_satisfies(rows[i], key, op, v, floats),
{
    assert(attr_row_is(t, i, rows[i]));
    lemma_firsts_distinct(keys_in(rows));
    let code = codes_of(t)[i] as int;
    assert(key_at(t, i) == rows[i].key);
    lemma_first_of(names_of(t), code);
    lemma_first_is(names_of(t), key);
    assert(attr_satisfies(t, i, op, v, floats) == value_satisfies(rows[i].value, op, v, floats));
}

pub proof fn lemma_parents(
    t: Table,
    rows: Seq<AttrRow>,
    n: nat,
    key: Seq<char>,
    op: Op,
    v: Value,
    floats: Floats,
    p: u32,
)
    requires
        attrs_table_of(t, rows),
        n <= rows.len(),
    ensures
        parents_carrying(t, n, key, op, v, floats).contains(p) <==> exists|i: int|
            0 <= i < n && (#[trigger] rows[i]).parent == p && attribute_satisfies(
                rows[i],
                key,
                op,
                v,
                floats,
            ),
    decreases n,
{
    if n > 0 {
        lemma_parents(t, rows, (n - 1) as nat, key, op, v, floats, p);
        lemma_row_carries(t, rows, n - 1, key, op, v, floats);
        let before = parents_carrying(t, (n - 1) as nat, key, op, v, floats);
        let now = parents_carrying(t, n, key, op, v, floats);
        if carries(t, n - 1, key, op, v, floats) {
            assert(now == before.push(parents_of(t)[n - 1]));
            if before.contains(p) {
                assert(now[before.index_of(p)] == p);
            }
            if rows[n - 1].parent == p {
                assert(now[before.len() as int] == p);
            }
            if now.contains(p) {
                let k = now.index_of(p);
                if k < before.len() {
                    assert(before[k] == p);
                }
            }
        }
    }
}

/// A record carries a term exactly if one of its own attributes, of its
/// resource's or of its scope's satisfies it: attributes are found without
/// being told which level they live at.
pub proof fn law_attributes_are_found_at_every_level(
    b: Sealed,
    st: LogsState,
    sidecars: Sidecars,
    blk: Block,
    key: Seq<char>,
    op: Op,
    v: Value,
    floats: Floats,
    row: int,
)
    requires
        logs_sealed_of(b, st, sidecars),
        blk.is_of(b.tables@, Signal::Logs),
        0 <= row < st.rows.len(),
        row <= u32::MAX,
    ensures
        blk.row_carries(row, key, op, v, floats) <==> {
            ||| parent_has(st.attrs, row as u32, key, op, v, floats)
            ||| parent_has(
                st.rs.resource_attrs,
                st.rows[row].resource_id as u32,
                key,
                op,
                v,
                floats,
            )
            ||| parent_has(st.rs.scope_attrs, st.rows[row].scope_id as u32, key, op, v, floats)
        },
{
    lemma_tables(b, st, sidecars);
    let t = b.tables@;
    lemma_root_columns(t[0].table, st);
    let (rid, sid) = (st.rows[row].resource_id as u32, st.rows[row].scope_id as u32);
    assert(crate::logs::resources_in(st.rows)[row] == st.rows[row].resource_id);
    assert(crate::logs::scopes_in(st.rows)[row] == st.rows[row].scope_id);
    lemma_parents(t[1].table, st.attrs, st.attrs.len(), key, op, v, floats, row as u32);
    lemma_parents(
        t[3].table,
        st.rs.resource_attrs,
        st.rs.resource_attrs.len(),
        key,
        op,
        v,
        floats,
        rid,
    );
    lemma_parents(t[4].table, st.rs.scope_attrs, st.rs.scope_attrs.len(), key, op, v, floats, sid);
    assert(blk.children@.len() == 0);
}

// ---------------------------------------------------------------------------
// The search.

proof fn lemma_wanted(all: Seq<Src>, q: Search, n: nat, k: int)
    requires
        0 <= k < n <= all.len(),
        wanted(all[k], q),
    ensures
        wanted_upto(all, q, n).contains(all[k]),
    decreases n,
{
    let now = wanted_upto(all, q, n);
    let before = wanted_upto(all, q, (n - 1) as nat);
    if k == n - 1 {
        assert(now[before.len() as int] == all[k]);
    } else {
        lemma_wanted(all, q, (n - 1) as nat, k);
        assert(now[before.index_of(all[k])] == all[k]);
    }
}

/// The answers of an attribute filter that has missed nothing in the tables: it
/// knows of every double, and answers yes wherever what is asked for is listed.
pub open spec fn misses_nothing(
    tables: Seq<Named>,
    asks: Seq<(Seq<char>, Seq<char>, bool)>,
    answers: Seq<bool>,
    has_double: bool,
) -> bool {
    &&& has_doubles(tables, tables.len()) ==> has_double
    &&& forall|k: int|
        0 <= k < asks.len() && k < answers.len() && listed(tables, tables.len()).contains(
            (asks[k].0, asks[k].1),
        ) ==> #[trigger] answers[k]
}

proof fn lemma_asked(terms: Seq<Term>, n: nat, floats: Floats, k: int)
    requires
        n <= terms.len(),
        0 <= k < attr_asks(terms, n, floats).len(),
    ensures
        exists|j: int|
            0 <= j < n && attr_ask(#[trigger] terms[j], floats) == Some(
                attr_asks(terms, n, floats)[k],
            ),
    decreases n,
{
    let before = attr_asks(terms, (n - 1) as nat, floats);
    if k < before.len() {
        lemma_asked(terms, (n - 1) as nat, floats, k);
        let j = choose|j: int|
            0 <= j < n - 1 && attr_ask(#[trigger] terms[j], floats) == Some(before[k]);
        assert(attr_ask(terms[j], floats) == Some(attr_asks(terms, n, floats)[k]));
    } else {
        assert(attr_ask(terms[n - 1], floats) == Some(attr_asks(terms, n, floats)[k]));
    }
}

proof fn lemma_listed(tables: Seq<Named>, n: nat, k: int, p: (Seq<char>, Seq<char>))
    requires
        0 <= k < n <= tables.len(),
        is_attrs_table(tables[k].table),
        listed_upto(tables[k].table, tables[k].table.rows as nat).contains(p),
    ensures
        listed(tables, n).contains(p),
    decreases n,
{
    let before = listed(tables, (n - 1) as nat);
    let t = tables[n - 1].table;
    let more = listed_upto(t, t.rows as nat);
    if k == n - 1 {
        assert(listed(tables, n)[before.len() + more.index_of(p)] == p);
    } else {
        lemma_listed(tables, (n - 1) as nat, k, p);
        assert(listed(tables, n)[before.index_of(p)] == p);
    }
}

/// What one attribute table of a block carries, the filter lets through.
proof fn lemma_let_through(
    tables: Seq<Named>,
    k: int,
    rows: Seq<AttrRow>,
    parent: u32,
    term: Term,
    ask: (Seq<char>, Seq<char>, bool),
    floats: Floats,
)
    requires
        0 <= k < tables.len(),
        attrs_table_of(tables[k].table, rows),
        attr_ask(term, floats) == Some(ask),
        parent_has(rows, parent, ask.0, term.op, term.value, floats),
    ensures
        listed(tables, tables.len()).contains((ask.0, ask.1)) || (has_doubles(tables, tables.len())
            && ask.2),
{
    let t = tables[k].table;
    let i = choose|i: int|
        0 <= i < rows.len() && (#[trigger] rows[i]).parent == parent && attribute_satisfies(
            rows[i],
            ask.0,
            term.op,
            term.value,
            floats,
        );
    lemma_row_carries(t, rows, i, ask.0, term.op, term.value, floats);
    law_attribute_pruning_is_sound(t, i, term, ask.0, ask.1, ask.2, floats);
    if listed_upto(t, t.rows as nat).contains((ask.0, ask.1)) {
        lemma_listed(tables, tables.len(), k, (ask.0, ask.1));
    } else {
        assert(is_attrs_table(tables[k].table));
    }
}

/// The answers of a zone map that keeps every range some row of the block lies
/// in.
pub open spec fn keeps_ranges(blk: Block, terms: Seq<Term>, answers: Seq<bool>, floats: Floats) -> bool {
    let asks = ranges_upto(terms, terms.len());
    forall|k: int, i: int|
        0 <= k < asks.len() && k < answers.len() && 0 <= i < blk.root.rows
            && #[trigger] blk.satisfies(i, terms[asks[k]], floats) ==> answers[k]
}

proof fn lemma_ranges_are_terms(terms: Seq<Term>, n: nat, k: int)
    requires
        0 <= k < ranges_upto(terms, n).len(),
    ensures
        0 <= ranges_upto(terms, n)[k] < n,
    decreases n,
{
    let before = ranges_upto(terms, (n - 1) as nat);
    if k < before.len() {
        lemma_ranges_are_terms(terms, (n - 1) as nat, k);
    }
}

/// A record that has been published is found by every search whose window and
/// page it lies in and whose terms it satisfies: its block is not pruned, by its
/// range, by the trace filter published with it, or by an attribute filter or a
/// zone map over its tables, and the record is among what the block contributes.
pub proof fn law_a_published_record_is_found(
    b: Sealed,
    st: LogsState,
    src: Src,
    sides: Sides,
    blk: Block,
    q: Search,
    floats: Floats,
    row: u32,
    block: usize,
)
    requires
        logs_sealed_of(b, st, Sidecars::Build),
        is_ranged(st),
        src.min_ts == b.min_ts && src.max_ts == b.max_ts,
        sides.trace matches Some(f) ==> b.sidecars@.len() == 1 && f@ == b.sidecars@[0].bytes@,
        sides.attrs matches Some((answers, has_double)) ==> misses_nothing(
            b.tables@,
            attr_asks(q.terms@, q.terms@.len(), floats),
            answers@,
            has_double,
        ),
        sides.ranges matches Some(answers) ==> keeps_ranges(blk, q.terms@, answers@, floats),
        blk.is_of(b.tables@, Signal::Logs),
        row < st.rows.len(),
        q.from <= st.rows[row as int].time <= q.to,
        is_after(cursor_of(src, st.rows[row as int].time, row), q.after),
        blk.satisfies_all(row as int, q.terms@, q.terms@.len(), floats),
    ensures
        wanted(src, q),
        answer_of(q, src, block, sides, Some(blk), floats).hits.contains(
            (Hit { at: cursor_of(src, st.rows[row as int].time, row), block }),
        ),
{
    let covered = covers(q, src);
    assert(st.min_ts <= st.rows[row as int].time <= st.max_ts);
    lemma_tables(b, st, Sidecars::Build);
    lemma_root_columns(b.tables@[0].table, st);
    law_what_was_written_is_selected(b, st, Sidecars::Build, blk, q, covered, floats, row as int);
    assert(times_in(st.rows)[row as int] == st.rows[row as int].time);
    if let Some(id) = needle_of(q.terms@) {
        let c = b.tables@[0].table.fields@[8].column;
        law_trace_pruning_is_sound(blk, q, covered, floats, row as int, c, id);
    }
    if let Some((answers, has_double)) = sides.attrs {
        let terms = q.terms@;
        let asks = attr_asks(terms, terms.len(), floats);
        assert forall|k: int| 0 <= k < asks.len() && k < answers@.len() implies lets_through(
            #[trigger] asks[k],
            answers@[k],
            has_double,
        ) by {
            lemma_asked(terms, terms.len(), floats, k);
            let j = choose|j: int|
                0 <= j < terms.len() && attr_ask(#[trigger] terms[j], floats) == Some(asks[k]);
            let t = terms[j];
            let r = row as int;
            let (op, v) = (t.op, t.value);
            let (rid, sid) = (st.rows[r].resource_id as u32, st.rows[r].scope_id as u32);
            assert(blk.satisfies(r, t, floats));
            law_attributes_are_found_at_every_level(
                b,
                st,
                Sidecars::Build,
                blk,
                asks[k].0,
                op,
                v,
                floats,
                r,
            );
            if parent_has(st.attrs, row, asks[k].0, op, v, floats) {
                lemma_let_through(b.tables@, 1, st.attrs, row, t, asks[k], floats);
            } else if parent_has(st.rs.resource_attrs, rid, asks[k].0, op, v, floats) {
                lemma_let_through(b.tables@, 3, st.rs.resource_attrs, rid, t, asks[k], floats);
            } else {
                lemma_let_through(b.tables@, 4, st.rs.scope_attrs, sid, t, asks[k], floats);
            }
        }
    }
    if let Some(answers) = sides.ranges {
        let terms = q.terms@;
        let asks = ranges_upto(terms, terms.len());
        assert forall|k: int| 0 <= k < asks.len() && k < answers@.len() implies #[trigger] answers@[k] by {
            lemma_ranges_are_terms(terms, terms.len(), k);
            assert(blk.satisfies(row as int, terms[asks[k]], floats));
        }
    }
    law_hits_are_the_selected_rows(blk, q, src, block, floats, row);
}

/// A record that has been acknowledged and not yet published is found: its
/// snapshot is a candidate of every search whose window holds it, and the record
/// is among what the candidate contributes, if it satisfies the terms.
pub proof fn law_an_acknowledged_record_is_found(
    disk: Seq<BlockRef>,
    open: Seq<Open>,
    k: int,
    st: LogsState,
    blk: Block,
    q: Search,
    floats: Floats,
    row: u32,
    block: usize,
)
    requires
        disk.len() <= usize::MAX,
        0 <= k < open.len() <= usize::MAX,
        logs_sealed_of(open[k].sealed, st, Sidecars::Skip),
        is_ranged(st),
        !published(disk, open[k].node, open[k].seq),
        blk.is_of(open[k].sealed.tables@, Signal::Logs),
        row < st.rows.len(),
        q.from <= st.rows[row as int].time <= q.to,
        is_after(cursor_of(Src::of_open(open[k], k), st.rows[row as int].time, row), q.after),
        blk.satisfies_all(row as int, q.terms@, q.terms@.len(), floats),
    ensures
        planned(disk, open, q).contains(Src::of_open(open[k], k)),
        answer_of(q, Src::of_open(open[k], k), block, no_sides(), Some(blk), floats).hits.contains(
            (Hit {
                at: cursor_of(Src::of_open(open[k], k), st.rows[row as int].time, row),
                block,
            }),
        ),
{
    let src = Src::of_open(open[k], k);
    let all = all_sources(disk, open);
    law_published_copy_wins(disk, open);
    assert(all.contains(src));
    let i = all.index_of(src);
    assert(st.min_ts <= st.rows[row as int].time <= st.max_ts);
    assert(wanted(src, q));
    lemma_wanted(all, q, all.len(), i);
    lemma_ranked_contains(wanted_upto(all, q, all.len()), src);
    law_what_was_written_is_selected(
        open[k].sealed,
        st,
        Sidecars::Skip,
        blk,
        q,
        covers(q, src),
        floats,
        row as int,
    );
    assert(times_in(st.rows)[row as int] == st.rows[row as int].time);
    law_hits_are_the_selected_rows(blk, q, src, block, floats, row);
}

} // verus!
