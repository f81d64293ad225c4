//! What the nodes and edges of a service map add up to, over the spans of the
//! blocks that were read.

use crate::frame::{key_in, keys_in, tables_of, Held};
use crate::framelaws::{is_tidy, lemma_span_tidy};
use crate::scan::{fixed_named, fixed_values, table_named, u16s_named, Named};
use crate::servicemap::{map_from, Edge, MapState, Node, Spans};
use crate::signal::Open;
use crate::source::Src;
use crate::table::{Data, Table};
use crate::tally::{law_put_then_get, value_of, Call};
use crate::walklaws::{belongs_to, lemma_belongs, lemma_counted_under};
use vstd::prelude::*;

verus! {

// ---------------------------------------------------------------------------
// What a span says.

/// What a map counts of a span: whose it is, who called it, whether it failed,
/// and how long it lasted.
pub struct Sight {
    pub own: u64,
    pub caller: Option<u64>,
    pub bad: bool,
    pub d: u64,
}

/// The identity of the resource of a span: zero where nothing says.
pub open spec fn own_key(tables: Seq<Named>, t: Table, row: int) -> u64 {
    if exists|k: u64| #[trigger] belongs_to(tables, t, row, k) {
        choose|k: u64| #[trigger] belongs_to(tables, t, row, k)
    } else {
        0
    }
}

/// The span of the id, and no later one is of it.
pub open spec fn is_last_span(t: Table, id: Seq<u8>, p: int) -> bool {
    &&& t.named("span_id"@) matches Some(c)
    &&& c.data matches Data::Fixed(v)
    &&& 0 <= p < t.rows
    &&& c.holds(p)
    &&& v@[p]@ == id
    &&& forall|q: int| p < q < t.rows && c.holds(q) ==> (#[trigger] v@[q])@ != id
}

/// Who called a span: the resource of the span that its parent id names, in the
/// same block. A span without a parent id was called from outside, by the
/// largest key there is.
pub open spec fn caller_key(tables: Seq<Named>, t: Table, row: int) -> Option<u64> {
    match t.named("parent_span_id"@) {
        Some(c) => match c.data {
            Data::Fixed(v) => if !c.holds(row) {
                Some(0xffff_ffff_ffff_ffffu64)
            } else if exists|p: int| #[trigger] is_last_span(t, v@[row]@, p) {
                Some(own_key(tables, t, choose|p: int| #[trigger] is_last_span(t, v@[row]@, p)))
            } else {
                None
            },
            _ => None,
        },
        None => None,
    }
}

/// Whether a span failed: its status code is two.
pub open spec fn failed(t: Table, row: int) -> bool {
    &&& t.named("status_code"@) matches Some(c)
    &&& c.data matches Data::U8(v)
    &&& v@[row] == 2
}

/// How long a span lasted, or zero where the table does not say.
pub open spec fn length(t: Table, row: int) -> u64 {
    match t.named("duration_nano"@) {
        Some(c) => match c.data {
            Data::U64(v) => v@[row],
            _ => 0,
        },
        None => 0,
    }
}

/// Whether a span starts in the window, its ends included.
pub open spec fn starts_within(t: Table, row: int, from: i64, to: i64) -> bool {
    match t.named("start_time_unix_nano"@) {
        Some(c) => match c.data {
            Data::Time(v) => from <= v@[row] && v@[row] <= to,
            _ => true,
        },
        None => true,
    }
}

/// What a map counts of a span.
pub open spec fn sight(tables: Seq<Named>, t: Table, row: int) -> Sight {
    Sight {
        own: own_key(tables, t, row),
        caller: caller_key(tables, t, row),
        bad: failed(t, row),
        d: length(t, row),
    }
}

/// The span table of a block, where it has the columns that a call is read from.
pub open spec fn span_table(tables: Seq<Named>) -> Option<Table> {
    match table_named(tables, "spans"@) {
        Some(t) => if (t.named("span_id"@) matches Some(a) && a.data is Fixed) && (t.named(
            "parent_span_id"@,
        ) matches Some(b) && b.data is Fixed) && (t.named("resource_id"@) matches Some(c)
            && c.data is U16) {
            Some(t)
        } else {
            None
        },
        None => None,
    }
}

/// Those of the first `n` spans of a table that start in the window.
pub open spec fn sights_upto(tables: Seq<Named>, t: Table, from: i64, to: i64, n: nat) -> Seq<Sight>
    decreases n,
{
    if n == 0 {
        Seq::empty()
    } else if starts_within(t, n - 1, from, to) {
        sights_upto(tables, t, from, to, (n - 1) as nat).push(sight(tables, t, n - 1))
    } else {
        sights_upto(tables, t, from, to, (n - 1) as nat)
    }
}

/// The spans of a block that start in the window.
pub open spec fn sights_in(tables: Seq<Named>, from: i64, to: i64) -> Seq<Sight> {
    match span_table(tables) {
        Some(t) => sights_upto(tables, t, from, to, t.rows as nat),
        None => Seq::empty(),
    }
}

/// The spans of the candidates from `i` up to `n` that start in the window.
pub open spec fn sights_of(
    refs: Seq<Src>,
    held: Seq<Held>,
    open: Seq<Open>,
    from: i64,
    to: i64,
    i: nat,
    n: nat,
) -> Seq<Sight>
    decreases n - i,
{
    if i >= n {
        Seq::empty()
    } else {
        sights_in(tables_of(refs[i as int], held, open), from, to) + sights_of(
            refs,
            held,
            open,
            from,
            to,
            i + 1,
            n,
        )
    }
}

// ---------------------------------------------------------------------------
// What spans add up to.

/// The calls from one resource to another. A span of a resource under one of
/// the same resource is no call.
pub open spec fn calls_of(v: Seq<Sight>, c: Call) -> Seq<Sight> {
    v.filter(|x: Sight| x.caller == Some(c.from) && x.own == c.to && c.from != c.to)
}

/// The spans of a resource.
pub open spec fn spans_of(v: Seq<Sight>, k: u64) -> Seq<Sight> {
    v.filter(|x: Sight| x.own == k)
}

/// The spans whose parent is not in their block.
pub open spec fn orphans_of(v: Seq<Sight>) -> Seq<Sight> {
    v.filter(|x: Sight| x.caller is None)
}

/// The spans that failed.
pub open spec fn failures_of(v: Seq<Sight>) -> Seq<Sight> {
    v.filter(|x: Sight| x.bad)
}

/// How long spans lasted, together.
pub open spec fn total(v: Seq<Sight>) -> int
    decreases v.len(),
{
    if v.len() == 0 {
        0
    } else {
        total(v.drop_last()) + v.last().d
    }
}

/// What is left of a number in 64 bits.
pub open spec fn in_64_bits(n: int) -> int {
    n % 0x1_0000_0000_0000_0000
}

/// What is counted of these calls, if there are any: how many they are, how many
/// of them failed, how long they lasted together, and the longest of them.
pub open spec fn edge_adds_up(e: Option<Edge>, calls: Seq<Sight>) -> bool {
    match e {
        None => calls.len() == 0,
        Some(e) => {
            &&& calls.len() > 0
            &&& e.calls == in_64_bits(calls.len() as int)
            &&& e.errors == in_64_bits(failures_of(calls).len() as int)
            &&& e.nanos == in_64_bits(total(calls))
            &&& forall|i: int| 0 <= i < calls.len() ==> (#[trigger] calls[i]).d <= e.max_nanos
            &&& exists|i: int| 0 <= i < calls.len() && (#[trigger] calls[i]).d == e.max_nanos
        },
    }
}

/// What is counted of these spans, if there are any.
pub open spec fn node_adds_up(n: Option<Node>, spans: Seq<Sight>) -> bool {
    match n {
        None => spans.len() == 0,
        Some(n) => {
            &&& spans.len() > 0
            &&& n.spans == in_64_bits(spans.len() as int)
            &&& n.errors == in_64_bits(failures_of(spans).len() as int)
            &&& n.nanos == in_64_bits(total(spans))
        },
    }
}

/// A map counts these spans and no others.
pub open spec fn adds_up(s: MapState, v: Seq<Sight>) -> bool {
    &&& forall|c: Call| edge_adds_up(#[trigger] value_of(s.edges, c), calls_of(v, c))
    &&& forall|k: u64| node_adds_up(#[trigger] value_of(s.nodes, k), spans_of(v, k))
    &&& s.unresolved == in_64_bits(orphans_of(v).len() as int)
}

// ---------------------------------------------------------------------------
// One span more.

proof fn lemma_filter_push(v: Seq<Sight>, x: Sight, keep: spec_fn(Sight) -> bool)
    ensures
        v.push(x).filter(keep) == if keep(x) {
            v.filter(keep).push(x)
        } else {
            v.filter(keep)
        },
{
    reveal(Seq::filter);
    assert(v.push(x).drop_last() =~= v);
}

proof fn lemma_failures_push(v: Seq<Sight>, x: Sight)
    ensures
        failures_of(v.push(x)).len() == failures_of(v).len() + if x.bad {
            1int
        } else {
            0
        },
        total(v.push(x)) == total(v) + x.d,
{
    lemma_filter_push(v, x, |x: Sight| x.bad);
    assert(v.push(x).drop_last() =~= v);
}

proof fn lemma_wraps(n: int, a: u64, d: u64)
    requires
        a == in_64_bits(n),
    ensures
        a.wrapping_add(d) == in_64_bits(n + d),
{
}

proof fn lemma_no_failures(v: Seq<Sight>)
    requires
        v.len() == 0,
    ensures
        failures_of(v).len() == 0,
        total(v) == 0,
{
    reveal(Seq::filter);
}

proof fn lemma_edge_push(e: Option<Edge>, calls: Seq<Sight>, x: Sight)
    requires
        edge_adds_up(e, calls),
    ensures
        edge_adds_up(Some(Edge::found(e).with(x.bad, x.d)), calls.push(x)),
{
    lemma_failures_push(calls, x);
    let was = Edge::found(e);
    let now = was.with(x.bad, x.d);
    let more = calls.push(x);
    if calls.len() == 0 {
        lemma_no_failures(calls);
    }
    lemma_wraps(calls.len() as int, was.calls, 1);
    lemma_wraps(
        failures_of(calls).len() as int,
        was.errors,
        if x.bad {
            1
        } else {
            0
        },
    );
    lemma_wraps(total(calls), was.nanos, x.d);
    assert(more[calls.len() as int] == x);
    assert forall|i: int| 0 <= i < more.len() implies (#[trigger] more[i]).d <= now.max_nanos by {
        if i < calls.len() {
            assert(more[i] == calls[i]);
        }
    }
    if e is Some && x.d <= was.max_nanos {
        let i = choose|i: int| 0 <= i < calls.len() && (#[trigger] calls[i]).d == was.max_nanos;
        assert(more[i].d == now.max_nanos);
    } else {
        assert(more[calls.len() as int].d == now.max_nanos);
    }
}

proof fn lemma_node_push(n: Option<Node>, spans: Seq<Sight>, x: Sight)
    requires
        node_adds_up(n, spans),
    ensures
        node_adds_up(Some(Node::found(n).with(x.bad, x.d)), spans.push(x)),
{
    lemma_failures_push(spans, x);
    let was = Node::found(n);
    if spans.len() == 0 {
        lemma_no_failures(spans);
    }
    lemma_wraps(spans.len() as int, was.spans, 1);
    lemma_wraps(
        failures_of(spans).len() as int,
        was.errors,
        if x.bad {
            1
        } else {
            0
        },
    );
    lemma_wraps(total(spans), was.nanos, x.d);
}

/// The columns of a block's spans, as the map takes them.
spec fn spans_in(tables: Seq<Named>, t: Table) -> Spans {
    Spans {
        table: t,
        ids: fixed_named(t, "span_id"@)->0,
        parents: fixed_named(t, "parent_span_id"@)->0,
        rids: u16s_named(t, "resource_id"@)->0,
        keys: keys_in(tables),
    }
}

proof fn lemma_own(tables: Seq<Named>, t: Table, row: int)
    requires
        span_table(tables) == Some(t),
    ensures
        spans_in(tables, t).key(row) == own_key(tables, t, row),
{
    let found = key_in(keys_in(tables), u16s_named(t, "resource_id"@), row);
    if exists|k: u64| #[trigger] belongs_to(tables, t, row, k) {
        let k = own_key(tables, t, row);
        lemma_belongs(tables, t, row, k);
    } else if let Some(k) = found {
        if k != 0 {
            lemma_counted_under(tables, t, row, k);
        }
    }
}

proof fn lemma_owner(tables: Seq<Named>, t: Table, id: Seq<u8>, n: nat)
    requires
        span_table(tables) == Some(t),
        n <= t.rows,
    ensures
        ({
            let s = spans_in(tables, t);
            match s.owner_upto(id, n) {
                Some(k) => exists|p: int|
                    0 <= p < n && s.ids.holds(p) && (#[trigger] fixed_values(s.ids)[p])@ == id && k
                        == own_key(tables, t, p) && (forall|q: int|
                        p < q < n && s.ids.holds(q) ==> (#[trigger] fixed_values(s.ids)[q])@ != id),
                None => forall|q: int|
                    0 <= q < n && s.ids.holds(q) ==> (#[trigger] fixed_values(s.ids)[q])@ != id,
            }
        }),
    decreases n,
{
    if n > 0 {
        let s = spans_in(tables, t);
        lemma_owner(tables, t, id, (n - 1) as nat);
        lemma_own(tables, t, n - 1);
        if s.ids.holds(n - 1) && fixed_values(s.ids)[n - 1]@ == id {
            assert(s.owner_upto(id, n) == Some(own_key(tables, t, n - 1)));
        } else if let Some(k) = s.owner_upto(id, (n - 1) as nat) {
            let p = choose|p: int|
                0 <= p < n - 1 && s.ids.holds(p) && (#[trigger] fixed_values(s.ids)[p])@ == id && k
                    == own_key(tables, t, p) && (forall|q: int|
                    p < q < n - 1 && s.ids.holds(q) ==> (#[trigger] fixed_values(s.ids)[q])@ != id);
            assert(fixed_values(s.ids)[p]@ == id);
        }
    }
}

proof fn lemma_caller(tables: Seq<Named>, t: Table, row: int)
    requires
        span_table(tables) == Some(t),
    ensures
        spans_in(tables, t).caller(row) == caller_key(tables, t, row),
{
    let s = spans_in(tables, t);
    if s.parents.holds(row) {
        let id = fixed_values(s.parents)[row]@;
        lemma_owner(tables, t, id, t.rows as nat);
        match s.owner_upto(id, t.rows as nat) {
            Some(k) => {
                let p = choose|p: int|
                    0 <= p < t.rows && s.ids.holds(p) && (#[trigger] fixed_values(s.ids)[p])@ == id
                        && k == own_key(tables, t, p) && (forall|q: int|
                        p < q < t.rows && s.ids.holds(q) ==> (#[trigger] fixed_values(s.ids)[q])@
                            != id);
                assert(is_last_span(t, id, p));
                let c = choose|p: int| #[trigger] is_last_span(t, id, p);
                assert(fixed_values(s.ids)[c]@ == id && fixed_values(s.ids)[p]@ == id);
                assert(c == p);
            },
            None => {
                assert forall|p: int| !#[trigger] is_last_span(t, id, p) by {
                    if is_last_span(t, id, p) {
                        assert(fixed_values(s.ids)[p]@ == id);
                    }
                }
            },
        }
    }
}

proof fn lemma_one_more(s: MapState, v: Seq<Sight>, tables: Seq<Named>, t: Table, row: int)
    requires
        is_tidy(s),
        adds_up(s, v),
        span_table(tables) == Some(t),
    ensures
        adds_up(s.with_span(spans_in(tables, t), row), v.push(sight(tables, t, row))),
{
    let x = sight(tables, t, row);
    let spans = spans_in(tables, t);
    let now = s.with_span(spans, row);
    let more = v.push(x);
    lemma_own(tables, t, row);
    lemma_caller(tables, t, row);
    assert(spans.is_bad(row) == x.bad);
    assert(spans.duration(row) == x.d);
    lemma_filter_push(v, x, |x: Sight| x.caller is None);
    assert forall|k: u64| node_adds_up(#[trigger] value_of(now.nodes, k), spans_of(more, k)) by {
        lemma_filter_push(v, x, |x: Sight| x.own == k);
        let n = Node::found(value_of(s.nodes, x.own)).with(x.bad, x.d);
        law_put_then_get(s.nodes, x.own, n, k);
        assert(node_adds_up(value_of(s.nodes, k), spans_of(v, k)));
        if k == x.own {
            lemma_node_push(value_of(s.nodes, k), spans_of(v, k), x);
        }
    }
    assert forall|c: Call| edge_adds_up(#[trigger] value_of(now.edges, c), calls_of(more, c)) by {
        lemma_filter_push(
            v,
            x,
            |x: Sight| x.caller == Some(c.from) && x.own == c.to && c.from != c.to,
        );
        assert(edge_adds_up(value_of(s.edges, c), calls_of(v, c)));
        if let Some(caller) = x.caller {
            if caller != x.own {
                let call = Call { from: caller, to: x.own };
                let e = Edge::found(value_of(s.edges, call)).with(x.bad, x.d);
                law_put_then_get(s.edges, call, e, c);
                if c == call {
                    lemma_edge_push(value_of(s.edges, c), calls_of(v, c), x);
                }
            }
        }
    }
}

proof fn lemma_spans_more(
    s: MapState,
    v: Seq<Sight>,
    tables: Seq<Named>,
    t: Table,
    from: i64,
    to: i64,
    n: nat,
)
    requires
        is_tidy(s),
        adds_up(s, v),
        span_table(tables) == Some(t),
    ensures
        is_tidy(s.with_spans(spans_in(tables, t), from, to, n)),
        adds_up(
            s.with_spans(spans_in(tables, t), from, to, n),
            v + sights_upto(tables, t, from, to, n),
        ),
    decreases n,
{
    if n == 0 {
        assert(v + Seq::<Sight>::empty() =~= v);
    } else {
        let spans = spans_in(tables, t);
        lemma_spans_more(s, v, tables, t, from, to, (n - 1) as nat);
        let before = s.with_spans(spans, from, to, (n - 1) as nat);
        let seen = sights_upto(tables, t, from, to, (n - 1) as nat);
        assert(spans.is_live(n - 1, from, to) == starts_within(t, n - 1, from, to));
        if starts_within(t, n - 1, from, to) {
            lemma_span_tidy(before, spans, n - 1);
            lemma_one_more(before, v + seen, tables, t, n - 1);
            let x = sight(tables, t, n - 1);
            assert((v + seen).push(x) =~= v + seen.push(x));
        }
    }
}

proof fn lemma_block_more(s: MapState, v: Seq<Sight>, tables: Seq<Named>, from: i64, to: i64)
    requires
        is_tidy(s),
        adds_up(s, v),
    ensures
        is_tidy(s.with_block(tables, from, to)),
        adds_up(s.with_block(tables, from, to), v + sights_in(tables, from, to)),
        s.with_block(tables, from, to).stats.rows_scanned == s.stats.rows_scanned.wrapping_add(
            rows_in(tables),
        ),
{
    match span_table(tables) {
        Some(t) => {
            let keys = keys_in(tables);
            let base = MapState {
                names: crate::frame::with_names(s.names, tables, keys),
                stats: crate::search::Stats {
                    blocks_scanned: s.stats.blocks_scanned.wrapping_add(1),
                    rows_scanned: s.stats.rows_scanned.wrapping_add(t.rows),
                    ..s.stats
                },
                ..s
            };
            assert(adds_up(base, v)) by {
                assert(base.edges == s.edges && base.nodes == s.nodes);
            }
            lemma_spans_more(base, v, tables, t, from, to, t.rows as nat);
            lemma_rows_stay(base, spans_in(tables, t), from, to, t.rows as nat);
        },
        None => {
            assert(v + Seq::<Sight>::empty() =~= v);
        },
    }
}

proof fn lemma_rows_stay(s: MapState, t: Spans, from: i64, to: i64, n: nat)
    ensures
        s.with_spans(t, from, to, n).stats == s.stats,
    decreases n,
{
    if n > 0 {
        lemma_rows_stay(s, t, from, to, (n - 1) as nat);
    }
}

// ---------------------------------------------------------------------------
// The sample.

/// How many rows reading a block costs: none where it has no calls to read.
pub open spec fn rows_in(tables: Seq<Named>) -> usize {
    match span_table(tables) {
        Some(t) => t.rows,
        None => 0,
    }
}

/// How many rows reading the candidates from `i` up to `n` costs.
pub open spec fn rows_of(refs: Seq<Src>, held: Seq<Held>, open: Seq<Open>, i: nat, n: nat) -> int
    decreases n - i,
{
    if i >= n {
        0
    } else {
        rows_in(tables_of(refs[i as int], held, open)) + rows_of(refs, held, open, i + 1, n)
    }
}

/// The candidates that are read from `i` on are those before `n`: one more is
/// read as long as fewer than so many rows have been, and there is one.
pub open spec fn is_sample(
    refs: Seq<Src>,
    held: Seq<Held>,
    open: Seq<Open>,
    so_far: int,
    max_spans: usize,
    i: nat,
    n: nat,
) -> bool {
    &&& i <= n <= refs.len()
    &&& n < refs.len() ==> so_far + rows_of(refs, held, open, i, n) >= max_spans
    &&& forall|m: nat| i <= m < n ==> so_far + #[trigger] rows_of(refs, held, open, i, m) < max_spans
}

proof fn lemma_map(
    s: MapState,
    v: Seq<Sight>,
    refs: Seq<Src>,
    held: Seq<Held>,
    open: Seq<Open>,
    from: i64,
    to: i64,
    max_spans: usize,
    i: nat,
) -> (n: nat)
    requires
        is_tidy(s),
        adds_up(s, v),
        i <= refs.len(),
        s.stats.rows_scanned + rows_of(refs, held, open, i, refs.len()) <= usize::MAX,
    ensures
        is_sample(refs, held, open, s.stats.rows_scanned as int, max_spans, i, n),
        adds_up(
            map_from(s, refs, held, open, from, to, max_spans, i),
            v + sights_of(refs, held, open, from, to, i, n),
        ),
    decreases refs.len() - i,
{
    if i >= refs.len() || s.stats.rows_scanned >= max_spans {
        assert(v + sights_of(refs, held, open, from, to, i, i) =~= v);
        i
    } else {
        let tables = tables_of(refs[i as int], held, open);
        let next = s.with_block(tables, from, to);
        let seen = sights_in(tables, from, to);
        lemma_block_more(s, v, tables, from, to);
        lemma_rows_grow(refs, held, open, i + 1, refs.len());
        let n = lemma_map(next, v + seen, refs, held, open, from, to, max_spans, i + 1);
        let rest = sights_of(refs, held, open, from, to, i + 1, n);
        assert(v + seen + rest =~= v + (seen + rest));
        let so_far = s.stats.rows_scanned as int;
        assert forall|m: nat| i <= m < n implies so_far + #[trigger] rows_of(refs, held, open, i, m)
            < max_spans by {
            if m > i {
                assert(next.stats.rows_scanned + rows_of(refs, held, open, i + 1, m) < max_spans);
            }
        }
        n
    }
}

proof fn lemma_rows_grow(refs: Seq<Src>, held: Seq<Held>, open: Seq<Open>, i: nat, n: nat)
    ensures
        rows_of(refs, held, open, i, n) >= 0,
    decreases n - i,
{
    if i < n {
        lemma_rows_grow(refs, held, open, i + 1, n);
    }
}

/// A map counts the spans of the newest candidates, as many as it takes to have
/// read enough rows, that start in its window. An edge is there if there was a
/// call along it; it counts the calls, the failed ones among them and their
/// time, and its longest call is one of them and no shorter than any. A node
/// counts the spans of its resource in the same way, and a span whose parent is
/// not in its block is counted as unresolved.
pub proof fn law_a_map_adds_up(
    refs: Seq<Src>,
    held: Seq<Held>,
    open: Seq<Open>,
    from: i64,
    to: i64,
    max_spans: usize,
    blocks: nat,
)
    requires
        rows_of(refs, held, open, 0, refs.len()) <= usize::MAX,
    ensures
        exists|n: nat| #[trigger]
            is_sample(refs, held, open, 0, max_spans, 0, n) && adds_up(
                map_from(MapState::start(blocks), refs, held, open, from, to, max_spans, 0),
                sights_of(refs, held, open, from, to, 0, n),
            ),
{
    let s = MapState::start(blocks);
    let none = Seq::<Sight>::empty();
    reveal(Seq::filter);
    assert(adds_up(s, none));
    let n = lemma_map(s, none, refs, held, open, from, to, max_spans, 0);
    assert(none + sights_of(refs, held, open, from, to, 0, n) =~= sights_of(
        refs,
        held,
        open,
        from,
        to,
        0,
        n,
    ));
}

} // verus!
