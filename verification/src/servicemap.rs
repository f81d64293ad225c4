//! The service map: who calls whom, how often, and how badly.
//!
//! An edge runs from the resource of a span's parent to the resource of the
//! span, and the join is from the parent span id to the span id, within one
//! block.

use crate::block::BlockRef;
use crate::columns::copy_all;
use crate::frame::{
    entity_keys, frame_ready, key_in, keys_in, label, label_of, labels, newest, newest_within,
    resource_names, tables_of, with_names, Held,
};
use crate::index::ByteIndex;
use crate::json::{Doc, Json};
use crate::scan::{
    find_table, fixed_column, fixed_named, fixed_values, table_named, time_column, times_named,
    u16_column, u16s_named, u64_column, u64s_named, u8_column, u8s_named, Named,
};
use crate::search::{Results, Stats};
use crate::signal::Open;
use crate::source::{all_sources, sources, Src};
use crate::table::{Column, Table};
use crate::tally::{value_of, with_value, Call, Tally};
use crate::text::decimal;
use std::collections::HashMap;
use vstd::prelude::*;

verus! {

broadcast use vstd::std_specs::hash::group_hash_axioms;

/// The status code of a span that failed.
pub const STATUS_ERROR: u8 = 2;

/// The caller of a root span: a key in the same space as the real ones. Zero is
/// taken, it means a resource that nobody described.
pub const ENTRY: u64 = 0xffff_ffff_ffff_ffff;

/// What the spans of one resource add up to. The sums wrap at 64 bits.
#[derive(Debug, Clone, Copy, PartialEq, Eq, Structural)]
pub struct Node {
    pub spans: u64,
    pub errors: u64,
    pub nanos: u64,
}

/// What the calls from one resource to another add up to.
#[derive(Debug, Clone, Copy, PartialEq, Eq, Structural)]
pub struct Edge {
    pub calls: u64,
    pub errors: u64,
    pub nanos: u64,
    pub max_nanos: u64,
}

impl Node {
    /// The sums of a resource, where it has any.
    pub open spec fn found(n: Option<Node>) -> Node {
        match n {
            Some(n) => n,
            None => Node { spans: 0, errors: 0, nanos: 0 },
        }
    }

    /// The sums with one span added.
    pub open spec fn with(self, bad: bool, d: u64) -> Node {
        Node {
            spans: self.spans.wrapping_add(1),
            errors: self.errors.wrapping_add(
                if bad {
                    1
                } else {
                    0
                },
            ),
            nanos: self.nanos.wrapping_add(d),
        }
    }
}

impl Edge {
    /// The sums of a call, where it has any.
    pub open spec fn found(e: Option<Edge>) -> Edge {
        match e {
            Some(e) => e,
            None => Edge { calls: 0, errors: 0, nanos: 0, max_nanos: 0 },
        }
    }

    /// The sums with one call added.
    pub open spec fn with(self, bad: bool, d: u64) -> Edge {
        Edge {
            calls: self.calls.wrapping_add(1),
            errors: self.errors.wrapping_add(
                if bad {
                    1
                } else {
                    0
                },
            ),
            nanos: self.nanos.wrapping_add(d),
            max_nanos: if d > self.max_nanos {
                d
            } else {
                self.max_nanos
            },
        }
    }
}

/// A map so far.
#[verifier::ext_equal]
pub struct MapState {
    pub nodes: Seq<(u64, Node)>,
    pub edges: Seq<(Call, Edge)>,
    pub names: Map<u64, Seq<char>>,
    /// Spans whose parent was not in the sample. Reported rather than hidden:
    /// it is how a reader knows to widen the sample before believing that a
    /// thin edge is a thin dependency.
    pub unresolved: u64,
    pub stats: Stats,
}

/// The columns of a span table that the map is made of.
#[verifier::ext_equal]
pub struct Spans {
    pub table: Table,
    pub ids: Column,
    pub parents: Column,
    pub rids: Seq<u16>,
    pub keys: Seq<u64>,
}

impl Spans {
    /// The identity of the resource of a span; zero where it has none.
    pub open spec fn key(self, row: int) -> u64 {
        match key_in(self.keys, Some(self.rids), row) {
            Some(k) => k,
            None => 0,
        }
    }

    /// The resource of the last of the first `n` spans of an id.
    pub open spec fn owner_upto(self, sid: Seq<u8>, n: nat) -> Option<u64>
        decreases n,
    {
        if n == 0 {
            None
        } else if self.ids.holds(n - 1) && fixed_values(self.ids)[n - 1]@ == sid {
            Some(self.key(n - 1))
        } else {
            self.owner_upto(sid, (n - 1) as nat)
        }
    }

    /// Who a span was called by. A span without a parent is an entry point; one
    /// whose parent is not in the block has no caller. Every span of the block
    /// counts as a parent, also one outside the window: otherwise the window
    /// would cut the edges at its boundary.
    pub open spec fn caller(self, row: int) -> Option<u64> {
        if self.parents.holds(row) {
            self.owner_upto(fixed_values(self.parents)[row]@, self.table.rows as nat)
        } else {
            Some(ENTRY)
        }
    }

    /// Whether a span starts in the window.
    pub open spec fn is_live(self, row: int, from: i64, to: i64) -> bool {
        match times_named(self.table, "start_time_unix_nano"@) {
            Some(t) => from <= t[row] <= to,
            None => true,
        }
    }

    /// Whether a span failed.
    pub open spec fn is_bad(self, row: int) -> bool {
        match u8s_named(self.table, "status_code"@) {
            Some(v) => v[row] == STATUS_ERROR,
            None => false,
        }
    }

    /// How long a span lasted.
    pub open spec fn duration(self, row: int) -> u64 {
        match u64s_named(self.table, "duration_nano"@) {
            Some(v) => v[row],
            None => 0,
        }
    }
}

impl MapState {
    /// The map with one span. A span whose parent is in the same service is
    /// internal work, not a call.
    pub open spec fn with_span(self, t: Spans, row: int) -> MapState {
        let key = t.key(row);
        let bad = t.is_bad(row);
        let d = t.duration(row);
        let s = MapState {
            nodes: with_value(
                self.nodes,
                key,
                Node::found(value_of(self.nodes, key)).with(bad, d),
            ),
            ..self
        };
        match t.caller(row) {
            None => MapState { unresolved: self.unresolved.wrapping_add(1), ..s },
            Some(caller) => if caller == key {
                s
            } else {
                let call = Call { from: caller, to: key };
                MapState {
                    edges: with_value(
                        self.edges,
                        call,
                        Edge::found(value_of(self.edges, call)).with(bad, d),
                    ),
                    ..s
                }
            },
        }
    }

    /// The map with those of the first `n` spans that start in the window.
    pub open spec fn with_spans(self, t: Spans, from: i64, to: i64, n: nat) -> MapState
        decreases n,
    {
        if n == 0 {
            self
        } else {
            let before = self.with_spans(t, from, to, (n - 1) as nat);
            if t.is_live(n - 1, from, to) {
                before.with_span(t, n - 1)
            } else {
                before
            }
        }
    }

    /// The map with one block. A block without a span table, or whose spans
    /// lack one of the three columns the join needs, contributes nothing.
    pub open spec fn with_block(self, tables: Seq<Named>, from: i64, to: i64) -> MapState {
        match table_named(tables, "spans"@) {
            Some(t) => match (
                fixed_named(t, "span_id"@),
                fixed_named(t, "parent_span_id"@),
                u16s_named(t, "resource_id"@),
            ) {
                (Some(ids), Some(parents), Some(rids)) => {
                    let keys = keys_in(tables);
                    MapState {
                        names: with_names(self.names, tables, keys),
                        stats: Stats {
                            blocks_scanned: self.stats.blocks_scanned.wrapping_add(1),
                            rows_scanned: self.stats.rows_scanned.wrapping_add(t.rows),
                            ..self.stats
                        },
                        ..self
                    }.with_spans(Spans { table: t, ids, parents, rids, keys }, from, to, t.rows as nat)
                },
                _ => self,
            },
            None => self,
        }
    }

    /// An empty map over this many candidates.
    pub open spec fn start(blocks: nat) -> MapState {
        MapState {
            nodes: Seq::empty(),
            edges: Seq::empty(),
            names: Map::empty(),
            unresolved: 0,
            stats: Stats { blocks_total: blocks as usize, ..Stats::none() },
        }
    }
}

// ---------------------------------------------------------------------------
// Who owns a span id.

/// The resource that each span id belongs to.
struct Owners {
    index: ByteIndex,
    keys: Vec<u64>,
}

impl Owners {
    spec fn wf(&self) -> bool {
        self.index.wf() && self.index@.len() == self.keys@.len()
    }

    spec fn owner(&self, sid: Seq<u8>) -> Option<u64> {
        if self.index@.contains(sid) {
            Some(self.keys@[self.index@.index_of(sid)])
        } else {
            None
        }
    }

    fn new() -> (r: Owners)
        ensures
            r.wf(),
            forall|x: Seq<u8>| (#[trigger] r.owner(x)) is None,
    {
        Owners { index: ByteIndex::new(), keys: Vec::new() }
    }

    /// The last one to claim an id has it.
    fn set(&mut self, sid: &Vec<u8>, key: u64)
        requires
            old(self).wf(),
        ensures
            final(self).wf(),
            forall|x: Seq<u8>| #[trigger]
                final(self).owner(x) == if x == sid@ {
                    Some(key)
                } else {
                    old(self).owner(x)
                },
    {
        let ghost was = *self;
        proof {
            self.index.lemma_distinct();
        }
        match self.index.find(sid.as_slice()) {
            Some(i) => {
                self.keys.set(i, key);
                proof {
                    assert forall|x: Seq<u8>| #[trigger] self.owner(x) == if x == sid@ {
                        Some(key)
                    } else {
                        was.owner(x)
                    } by {
                        assert(self.index@[i as int] == sid@);
                        assert(self.index@.contains(sid@));
                        if self.index@.contains(x) && x != sid@ {
                            let k = self.index@.index_of(x);
                            assert(k != i);
                        }
                    }
                }
            },
            None => {
                self.index.push(copy_all(sid));
                self.keys.push(key);
                proof {
                    self.index.lemma_distinct();
                    let n = was.index@.len() as int;
                    assert(self.index@[n] == sid@);
                    assert forall|x: Seq<u8>| #[trigger] self.owner(x) == if x == sid@ {
                        Some(key)
                    } else {
                        was.owner(x)
                    } by {
                        if x == sid@ {
                            assert(self.index@.contains(x));
                            assert(self.index@.index_of(x) == n);
                        } else if was.index@.contains(x) {
                            let k = was.index@.index_of(x);
                            assert(self.index@[k] == x);
                            assert(self.index@.contains(x));
                            assert(self.index@.index_of(x) == k);
                        } else if self.index@.contains(x) {
                            let k = self.index@.index_of(x);
                            assert(was.index@[k] == x);
                        }
                    }
                }
            },
        }
    }

    fn get(&self, sid: &Vec<u8>) -> (r: Option<u64>)
        requires
            self.wf(),
        ensures
            r == self.owner(sid@),
    {
        proof {
            self.index.lemma_distinct();
        }
        match self.index.find(sid.as_slice()) {
            Some(i) => {
                assert(self.index@.contains(sid@));
                assert(self.index@.index_of(sid@) == i);
                Some(self.keys[i])
            },
            None => None,
        }
    }
}

/// The columns of a span table that the map is made of.
struct SpanColumns<'a> {
    table: &'a Table,
    ids: &'a Column,
    id_values: &'a Vec<Vec<u8>>,
    parents: &'a Column,
    parent_values: &'a Vec<Vec<u8>>,
    rids: &'a Vec<u16>,
    keys: Vec<u64>,
}

impl<'a> SpanColumns<'a> {
    spec fn wf(&self) -> bool {
        &&& self.table.wf()
        &&& self.ids.wf()
        &&& self.ids.spec_len() == self.table.rows
        &&& self.id_values@ == fixed_values(*self.ids)
        &&& self.id_values@.len() == self.table.rows
        &&& self.parents.wf()
        &&& self.parents.spec_len() == self.table.rows
        &&& self.parent_values@ == fixed_values(*self.parents)
        &&& self.parent_values@.len() == self.table.rows
        &&& self.rids@.len() == self.table.rows
    }

    spec fn spans(&self) -> Spans {
        Spans {
            table: *self.table,
            ids: *self.ids,
            parents: *self.parents,
            rids: self.rids@,
            keys: self.keys@,
        }
    }

    fn key(&self, row: usize) -> (r: u64)
        requires
            self.wf(),
            row < self.table.rows,
        ensures
            r == self.spans().key(row as int),
    {
        let i = self.rids[row] as usize;
        if i < self.keys.len() {
            self.keys[i]
        } else {
            0
        }
    }

    fn owners(&self) -> (r: Owners)
        requires
            self.wf(),
        ensures
            r.wf(),
            forall|x: Seq<u8>| #[trigger]
                r.owner(x) == self.spans().owner_upto(x, self.table.rows as nat),
    {
        let mut o = Owners::new();
        let mut row: usize = 0;
        while row < self.table.rows
            invariant
                self.wf(),
                row <= self.table.rows,
                o.wf(),
                forall|x: Seq<u8>| #[trigger]
                    o.owner(x) == self.spans().owner_upto(x, row as nat),
            decreases self.table.rows - row,
        {
            if self.ids.is_valid(row) {
                o.set(&self.id_values[row], self.key(row));
            }
            row = row + 1;
        }
        o
    }

    fn is_live(&self, row: usize, from: i64, to: i64) -> (r: bool)
        requires
            self.wf(),
            row < self.table.rows,
        ensures
            r == self.spans().is_live(row as int, from, to),
    {
        match time_column(self.table, "start_time_unix_nano") {
            Some(t) => t[row] >= from && t[row] <= to,
            None => true,
        }
    }

    fn is_bad(&self, row: usize) -> (r: bool)
        requires
            self.wf(),
            row < self.table.rows,
        ensures
            r == self.spans().is_bad(row as int),
    {
        match u8_column(self.table, "status_code") {
            Some(v) => v[row] == STATUS_ERROR,
            None => false,
        }
    }

    fn duration(&self, row: usize) -> (r: u64)
        requires
            self.wf(),
            row < self.table.rows,
        ensures
            r == self.spans().duration(row as int),
    {
        match u64_column(self.table, "duration_nano") {
            Some(v) => v[row],
            None => 0,
        }
    }
}

// ---------------------------------------------------------------------------
// The map.

/// An open array with the nodes of a map added to it.
pub open spec fn nodes_doc(d: Doc, nodes: Seq<(u64, Node)>, names: Map<u64, Seq<char>>) -> Doc
    decreases nodes.len(),
{
    if nodes.len() == 0 {
        d
    } else {
        let (key, n) = nodes.last();
        nodes_doc(d, nodes.drop_last(), names).enter('{').key("key"@).digits_str(key as int).key(
            "name"@,
        ).str(label(names, key)).key("spans"@).value(decimal(n.spans as nat)).key(
            "errors"@,
        ).value(decimal(n.errors as nat)).key("avg_nano"@).digits_str(
            average(n.nanos, n.spans),
        ).leave('}')
    }
}

/// A sum over how many there were, or over one where there were none.
pub open spec fn average(sum: u64, count: u64) -> int {
    if count == 0 {
        sum as int
    } else {
        sum as int / count as int
    }
}

fn mean(sum: u64, count: u64) -> (r: u64)
    ensures
        r == average(sum, count),
{
    if count == 0 {
        sum
    } else {
        sum / count
    }
}

/// A document with the caller of an edge: the synthetic one by name, so that
/// the map says where the traffic arrives.
pub open spec fn caller_doc(d: Doc, from: u64) -> Doc {
    if from == ENTRY {
        d.str("entry"@)
    } else {
        d.digits_str(from as int)
    }
}

/// An open array with the edges of a map added to it.
pub open spec fn edges_doc(d: Doc, edges: Seq<(Call, Edge)>) -> Doc
    decreases edges.len(),
{
    if edges.len() == 0 {
        d
    } else {
        let (c, e) = edges.last();
        let before = edges_doc(d, edges.drop_last()).enter('{').key("from"@);
        caller_doc(before, c.from).key("to"@).digits_str(c.to as int).key("calls"@).value(
            decimal(e.calls as nat),
        ).key("errors"@).value(decimal(e.errors as nat)).key("avg_nano"@).digits_str(
            average(e.nanos, e.calls),
        ).key("max_nano"@).digits_str(e.max_nanos as int).leave('}')
    }
}

/// The document of a map: nodes and edges in key order, so that two identical
/// requests produce identical bytes.
pub open spec fn map_doc(s: MapState) -> Doc {
    let nodes = nodes_doc(
        Doc::empty().enter('{').key("nodes"@).enter('['),
        s.nodes,
        s.names,
    ).leave(']');
    let edges = edges_doc(nodes.key("edges"@).enter('['), s.edges).leave(']');
    edges.key("unresolved"@).value(decimal(s.unresolved as nat)).leave('}')
}

/// A map under way: the candidates, where it stands, and what it has so far.
pub struct MapRun {
    pub refs: Vec<Src>,
    pub at: usize,
    pub from: i64,
    pub to: i64,
    pub max_spans: usize,
    pub nodes: Tally<u64, Node>,
    pub edges: Tally<Call, Edge>,
    pub names: HashMap<u64, String>,
    pub unresolved: u64,
    pub stats: Stats,
}

impl View for MapRun {
    type V = MapState;

    open spec fn view(&self) -> MapState {
        MapState {
            nodes: self.nodes@,
            edges: self.edges@,
            names: labels(self.names@),
            unresolved: self.unresolved,
            stats: self.stats,
        }
    }
}

impl MapRun {
    pub open spec fn wf(&self) -> bool {
        self.nodes.wf() && self.edges.wf() && self.at <= self.refs@.len()
    }

    /// Plan a map over a window: the candidates that meet it, newest first.
    pub fn plan(disk: &Vec<BlockRef>, open: &Vec<Open>, from: i64, to: i64, max_spans: usize) -> (r:
        MapRun)
        ensures
            r.wf(),
            r.refs@ == newest(all_sources(disk@, open@), from, to),
            r.at == 0,
            r.from == from,
            r.to == to,
            r.max_spans == max_spans,
            r@ == MapState::start(all_sources(disk@, open@).len()),
    {
        let all = sources(disk, open);
        let stats = Stats { blocks_total: all.len(), ..Stats::default() };
        let r = MapRun {
            refs: newest_within(&all, from, to),
            at: 0,
            from,
            to,
            max_spans,
            nodes: Tally::new(),
            edges: Tally::new(),
            names: HashMap::new(),
            unresolved: 0,
            stats,
        };
        assert(r@ =~= MapState::start(all@.len()));
        r
    }

    /// The candidate to read next, or `None` where there is none left or the
    /// sample is large enough: a map is a shape, not a census.
    pub fn wants(&self) -> (r: Option<Src>)
        requires
            self.wf(),
        ensures
            r == if self.at < self.refs@.len() && self@.stats.rows_scanned < self.max_spans {
                Some(self.refs@[self.at as int])
            } else {
                None
            },
    {
        if self.at < self.refs.len() && self.stats.rows_scanned < self.max_spans {
            Some(self.refs[self.at])
        } else {
            None
        }
    }

    fn span(&mut self, t: &SpanColumns, owners: &Owners, row: usize)
        requires
            old(self).wf(),
            t.wf(),
            owners.wf(),
            forall|x: Seq<u8>| #[trigger]
                owners.owner(x) == t.spans().owner_upto(x, t.table.rows as nat),
            row < t.table.rows,
        ensures
            final(self).wf(),
            final(self)@ == old(self)@.with_span(t.spans(), row as int),
            final(self).refs == old(self).refs,
            final(self).at == old(self).at,
            final(self).from == old(self).from,
            final(self).to == old(self).to,
            final(self).max_spans == old(self).max_spans,
    {
        let key = t.key(row);
        let bad = t.is_bad(row);
        let d = t.duration(row);
        let one: u64 = if bad {
            1
        } else {
            0
        };
        let n = match self.nodes.get(key) {
            Some(n) => n,
            None => Node { spans: 0, errors: 0, nanos: 0 },
        };
        self.nodes.put(
            key,
            Node {
                spans: n.spans.wrapping_add(1),
                errors: n.errors.wrapping_add(one),
                nanos: n.nanos.wrapping_add(d),
            },
        );
        let caller = if t.parents.is_valid(row) {
            owners.get(&t.parent_values[row])
        } else {
            Some(ENTRY)
        };
        match caller {
            None => {
                self.unresolved = self.unresolved.wrapping_add(1);
            },
            Some(caller) => {
                if caller != key {
                    let call = Call { from: caller, to: key };
                    let e = match self.edges.get(call) {
                        Some(e) => e,
                        None => Edge { calls: 0, errors: 0, nanos: 0, max_nanos: 0 },
                    };
                    self.edges.put(
                        call,
                        Edge {
                            calls: e.calls.wrapping_add(1),
                            errors: e.errors.wrapping_add(one),
                            nanos: e.nanos.wrapping_add(d),
                            max_nanos: if d > e.max_nanos {
                                d
                            } else {
                                e.max_nanos
                            },
                        },
                    );
                }
            },
        }
    }

    fn block(&mut self, tables: &[Named])
        requires
            old(self).wf(),
            frame_ready(tables@),
        ensures
            final(self).wf(),
            final(self)@ == old(self)@.with_block(tables@, old(self).from, old(self).to),
            final(self).refs == old(self).refs,
            final(self).at == old(self).at,
            final(self).from == old(self).from,
            final(self).to == old(self).to,
            final(self).max_spans == old(self).max_spans,
    {
        let t = match find_table(tables, "spans") {
            Some(t) => t,
            None => {
                return;
            },
        };
        let (ids, id_values) = match fixed_column(t, "span_id") {
            Some(p) => p,
            None => {
                return;
            },
        };
        let (parents, parent_values) = match fixed_column(t, "parent_span_id") {
            Some(p) => p,
            None => {
                return;
            },
        };
        let rids = match u16_column(t, "resource_id") {
            Some(v) => v,
            None => {
                return;
            },
        };
        self.stats.blocks_scanned = self.stats.blocks_scanned.wrapping_add(1);
        self.stats.rows_scanned = self.stats.rows_scanned.wrapping_add(t.rows);
        let keys = entity_keys(tables);
        resource_names(tables, &keys, &mut self.names);
        let cols = SpanColumns { table: t, ids, id_values, parents, parent_values, rids, keys };
        let owners = cols.owners();
        let ghost before = self@;
        let ghost was = *self;
        let mut row: usize = 0;
        while row < t.rows
            invariant
                row <= t.rows,
                self.wf(),
                cols.wf(),
                cols.table == t,
                owners.wf(),
                forall|x: Seq<u8>| #[trigger]
                    owners.owner(x) == cols.spans().owner_upto(x, t.rows as nat),
                self@ == before.with_spans(cols.spans(), self.from, self.to, row as nat),
                self.refs == was.refs,
                self.at == was.at,
                self.from == was.from,
                self.to == was.to,
                self.max_spans == was.max_spans,
            decreases t.rows - row,
        {
            if cols.is_live(row, self.from, self.to) {
                self.span(&cols, &owners, row);
            }
            row = row + 1;
        }
    }

    /// Take in the tables of the candidate asked for.
    pub fn absorb(&mut self, tables: &[Named])
        requires
            old(self).wf(),
            old(self).at < old(self).refs@.len(),
            frame_ready(tables@),
        ensures
            final(self).wf(),
            final(self)@ == old(self)@.with_block(tables@, old(self).from, old(self).to),
            final(self).refs == old(self).refs,
            final(self).at == old(self).at + 1,
            final(self).from == old(self).from,
            final(self).to == old(self).to,
            final(self).max_spans == old(self).max_spans,
    {
        assert(self.refs.len() <= usize::MAX);
        self.block(tables);
        self.at = self.at + 1;
    }

    fn write_nodes(&self, j: &mut Json)
        ensures
            final(j)@ == nodes_doc(old(j)@, self@.nodes, self@.names),
    {
        let ghost d = j@;
        let ghost nodes = self@.nodes;
        let mut i: usize = 0;
        assert(nodes.take(0) =~= Seq::<(u64, Node)>::empty());
        while i < self.nodes.len()
            invariant
                i <= nodes.len(),
                nodes == self.nodes@,
                j@ == nodes_doc(d, nodes.take(i as int), labels(self.names@)),
            decreases nodes.len() - i,
        {
            assert(nodes.take(i + 1).drop_last() =~= nodes.take(i as int));
            let (key, n) = *self.nodes.entry(i);
            j.enter('{');
            j.key("key");
            j.u64_str(key);
            j.key("name");
            j.str(label_of(&self.names, key));
            j.key("spans");
            j.u64(n.spans);
            j.key("errors");
            j.u64(n.errors);
            j.key("avg_nano");
            j.u64_str(mean(n.nanos, n.spans));
            j.leave('}');
            i = i + 1;
        }
        assert(nodes.take(i as int) =~= nodes);
    }

    fn write_edges(&self, j: &mut Json)
        ensures
            final(j)@ == edges_doc(old(j)@, self@.edges),
    {
        let ghost d = j@;
        let ghost edges = self@.edges;
        let mut i: usize = 0;
        assert(edges.take(0) =~= Seq::<(Call, Edge)>::empty());
        while i < self.edges.len()
            invariant
                i <= edges.len(),
                edges == self.edges@,
                j@ == edges_doc(d, edges.take(i as int)),
            decreases edges.len() - i,
        {
            assert(edges.take(i + 1).drop_last() =~= edges.take(i as int));
            let (c, e) = *self.edges.entry(i);
            j.enter('{');
            j.key("from");
            if c.from == ENTRY {
                j.str("entry");
            } else {
                j.u64_str(c.from);
            }
            j.key("to");
            j.u64_str(c.to);
            j.key("calls");
            j.u64(e.calls);
            j.key("errors");
            j.u64(e.errors);
            j.key("avg_nano");
            j.u64_str(mean(e.nanos, e.calls));
            j.key("max_nano");
            j.u64_str(e.max_nanos);
            j.leave('}');
            i = i + 1;
        }
        assert(edges.take(i as int) =~= edges);
    }

    /// The map as a response.
    pub fn finish(&self) -> (r: Results)
        ensures
            is_map(r, self@),
    {
        let mut j = Json::new();
        j.enter('{');
        j.key("nodes");
        j.enter('[');
        self.write_nodes(&mut j);
        j.leave(']');
        j.key("edges");
        j.enter('[');
        self.write_edges(&mut j);
        j.leave(']');
        j.key("unresolved");
        j.u64(self.unresolved);
        j.leave('}');
        Results {
            json: j.into_string(),
            stats: Stats { rows_matched: self.edges.len(), ..self.stats },
            next: None,
        }
    }
}

/// A response that is a map: its document, what it covered, and how many edges
/// it has.
pub open spec fn is_map(r: Results, s: MapState) -> bool {
    &&& r.json@ == map_doc(s).text
    &&& r.stats == (Stats { rows_matched: s.edges.len() as usize, ..s.stats })
    &&& r.next is None
}

/// A map that goes on at candidate `i`, until the sample is large enough.
pub open spec fn map_from(
    s: MapState,
    refs: Seq<Src>,
    held: Seq<Held>,
    open: Seq<Open>,
    from: i64,
    to: i64,
    max_spans: usize,
    i: nat,
) -> MapState
    decreases refs.len() - i,
{
    if i >= refs.len() || s.stats.rows_scanned >= max_spans {
        s
    } else {
        map_from(
            s.with_block(tables_of(refs[i as int], held, open), from, to),
            refs,
            held,
            open,
            from,
            to,
            max_spans,
            i + 1,
        )
    }
}

} // verus!
