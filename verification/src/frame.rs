//! The frame algebra: correlation as a closed set of operations.
//!
//! A frame is a bounded region of telemetry: a time window, and the traces and
//! entities found in it. Every operation takes a frame to a frame, so an
//! investigation is a walk over frames and every state along it is a legal one.
//!
//! Reading the rows of a trace or of an entity is an ordinary search; nothing
//! here does that a second time.

use crate::attrfilter::{attr_key, attrs_shaped, check_attrs, key_at};
use crate::attrindex::str_values;
use crate::block::BlockRef;
use crate::bloom::{may_contain, maybe};
use crate::columns::copy_all;
pub use crate::facets::{entities, names_of};
use crate::float::Floats;
use crate::identity::NO_IDENTITY;
use crate::json::{Doc, Json};
use crate::order::{same_bytes, same_text};
use crate::probe::{ruled_out, sixteen, Prepared, Sides};
use crate::query::Search;
use crate::scan::{
    find_table, fixed_column, fixed_named, fixed_values, table_named, time_column, times_if_named,
    times_named, u16_column, u16s_if_named, u16s_named, u32_column, u32s_named, u64_column,
    u64s_if_named, u64s_named, u8_column, u8s_if_named, Block, Named,
};
use crate::search::{is_here, Results};
use crate::select::all_rows;
use crate::servicemap::{is_map, map_from, MapRun, MapState};
use crate::signal::Open;
use crate::sort::{ranked, sort_ranked, Ranked};
use crate::source::{all_sources, sources, Origin, Src};
use crate::table::{lemma_named_is_wf, Column, Data, Table};
use std::collections::HashMap;
use vstd::prelude::*;

verus! {

broadcast use vstd::std_specs::hash::group_hash_axioms;

/// How many traces a frame may hold.
pub const MAX_TRACES: usize = 1000;

/// How many entities a frame may hold.
pub const MAX_ENTITIES: usize = 256;

/// A bounded region of telemetry.
#[derive(Debug, Clone, PartialEq, Eq)]
pub struct Frame {
    pub from: i64,
    pub to: i64,
    /// Stable resource identities. Never the sentinel for "no identity":
    /// that would merge every resource nobody described into one entity.
    pub entities: Vec<u64>,
    pub traces: Vec<[u8; 16]>,
    /// Something was dropped on the way here. It stays on the frame, so that a
    /// caller three expansions later still knows the answer is a sample.
    pub truncated: bool,
}

/// What a frame is.
#[verifier::ext_equal]
pub struct Region {
    pub from: i64,
    pub to: i64,
    pub entities: Seq<u64>,
    pub traces: Seq<Seq<u8>>,
    pub truncated: bool,
}

/// Trace ids, as byte strings.
pub open spec fn ids_of(v: Seq<[u8; 16]>) -> Seq<Seq<u8>> {
    v.map_values(|t: [u8; 16]| t@)
}

impl View for Frame {
    type V = Region;

    open spec fn view(&self) -> Region {
        Region {
            from: self.from,
            to: self.to,
            entities: self.entities@,
            traces: ids_of(self.traces@),
            truncated: self.truncated,
        }
    }
}

impl Region {
    /// A window with nothing found in it yet.
    pub open spec fn window(from: i64, to: i64) -> Region {
        Region { from, to, entities: Seq::empty(), traces: Seq::empty(), truncated: false }
    }

    /// The frame with a trace added. What is no trace id is passed over, what
    /// is there already stays once, and what no longer fits is dropped
    /// visibly.
    pub open spec fn with_trace(self, id: Seq<u8>) -> Region {
        if id.len() != 16 || self.traces.contains(id) {
            self
        } else if self.traces.len() >= MAX_TRACES {
            Region { truncated: true, ..self }
        } else {
            Region { traces: self.traces.push(id), ..self }
        }
    }

    /// The frame with an entity added, in the same way. No identity is no
    /// entity.
    pub open spec fn with_entity(self, key: u64) -> Region {
        if key == NO_IDENTITY || self.entities.contains(key) {
            self
        } else if self.entities.len() >= MAX_ENTITIES {
            Region { truncated: true, ..self }
        } else {
            Region { entities: self.entities.push(key), ..self }
        }
    }

    /// The caps hold, nothing is there twice, every trace id is one, and no
    /// entity is the sentinel.
    pub open spec fn is_legal(self) -> bool {
        &&& self.traces.len() <= MAX_TRACES
        &&& self.traces.no_duplicates()
        &&& forall|i: int| 0 <= i < self.traces.len() ==> (#[trigger] self.traces[i]).len() == 16
        &&& self.entities.len() <= MAX_ENTITIES
        &&& self.entities.no_duplicates()
        &&& !self.entities.contains(NO_IDENTITY)
    }
}

impl Default for Frame {
    fn default() -> (f: Frame)
        ensures
            f@ == Region::window(0, 0),
    {
        let f = Frame { from: 0, to: 0, entities: Vec::new(), traces: Vec::new(), truncated: false };
        assert(f@ =~= Region::window(0, 0));
        f
    }
}

/// Whether a trace id is in a list.
fn has_trace(traces: &Vec<[u8; 16]>, id: &[u8]) -> (r: bool)
    ensures
        r == ids_of(traces@).contains(id@),
{
    let mut i: usize = 0;
    while i < traces.len()
        invariant
            i <= traces@.len(),
            forall|k: int| 0 <= k < i ==> #[trigger] ids_of(traces@)[k] != id@,
        decreases traces@.len() - i,
    {
        if same_bytes(vstd::array::array_as_slice(&traces[i]), id) {
            assert(ids_of(traces@)[i as int] == id@);
            return true;
        }
        assert(ids_of(traces@)[i as int] != id@);
        i = i + 1;
    }
    false
}

/// Whether a key is in a list.
pub(crate) fn has_key(keys: &Vec<u64>, key: u64) -> (r: bool)
    ensures
        r == keys@.contains(key),
{
    let mut i: usize = 0;
    while i < keys.len()
        invariant
            i <= keys@.len(),
            forall|k: int| 0 <= k < i ==> #[trigger] keys@[k] != key,
        decreases keys@.len() - i,
    {
        if keys[i] == key {
            return true;
        }
        i = i + 1;
    }
    false
}

/// The name an entity is shown under: a resource without a name is one that
/// nobody described.
pub open spec fn label(names: Map<u64, Seq<char>>, key: u64) -> Seq<char> {
    if names.contains_key(key) {
        names[key]
    } else {
        "unknown"@
    }
}

/// Names by key, as text.
pub open spec fn labels(h: Map<u64, String>) -> Map<u64, Seq<char>> {
    h.map_values(|s: String| s@)
}

/// The name an entity is shown under.
pub(crate) fn label_of<'a>(names: &'a HashMap<u64, String>, key: u64) -> (r: &'a str)
    ensures
        r@ == label(labels(names@), key),
{
    match names.get(&key) {
        Some(s) => s.as_str(),
        None => "unknown",
    }
}

/// An open array with the entities of a frame added to it.
pub open spec fn entities_doc(d: Doc, entities: Seq<u64>, names: Map<u64, Seq<char>>) -> Doc
    decreases entities.len(),
{
    if entities.len() == 0 {
        d
    } else {
        let key = entities.last();
        entities_doc(d, entities.drop_last(), names).enter('{').key("key"@).digits_str(
            key as int,
        ).key("name"@).str(label(names, key)).leave('}')
    }
}

/// An open array with trace ids added to it.
pub open spec fn traces_doc(d: Doc, traces: Seq<Seq<u8>>) -> Doc
    decreases traces.len(),
{
    if traces.len() == 0 {
        d
    } else {
        traces_doc(d, traces.drop_last()).hex(traces.last())
    }
}

/// A document with a frame added to it.
pub open spec fn frame_doc(d: Doc, f: Region, names: Map<u64, Seq<char>>) -> Doc {
    let window = d.enter('{').key("from"@).digits_str(f.from as int).key("to"@).digits_str(
        f.to as int,
    );
    let entities = entities_doc(window.key("entities"@).enter('['), f.entities, names).leave(']');
    let traces = traces_doc(entities.key("traces"@).enter('['), f.traces).leave(']');
    traces.key("truncated"@).bool(f.truncated).leave('}')
}

impl Frame {
    /// Add a trace.
    pub fn add_trace(&mut self, id: &[u8])
        ensures
            final(self)@ == old(self)@.with_trace(id@),
    {
        if id.len() != 16 {
            return;
        }
        if has_trace(&self.traces, id) {
            return;
        }
        if self.traces.len() >= MAX_TRACES {
            self.truncated = true;
            return;
        }
        self.traces.push(sixteen(id));
        assert(self@.traces =~= old(self)@.traces.push(id@));
    }

    /// Add an entity.
    pub fn add_entity(&mut self, key: u64)
        ensures
            final(self)@ == old(self)@.with_entity(key),
    {
        if key == NO_IDENTITY || has_key(&self.entities, key) {
            return;
        }
        if self.entities.len() >= MAX_ENTITIES {
            self.truncated = true;
            return;
        }
        self.entities.push(key);
    }

    /// The frame as a response body. `names` labels the entity keys; one that
    /// it lacks is shown as unknown.
    pub fn write_json(&self, j: &mut Json, names: &HashMap<u64, String>)
        ensures
            final(j)@ == frame_doc(old(j)@, self@, labels(names@)),
    {
        let ghost view = self@;
        j.enter('{');
        j.key("from");
        j.i64_str(self.from);
        j.key("to");
        j.i64_str(self.to);
        j.key("entities");
        j.enter('[');
        let ghost d = j@;
        let mut i: usize = 0;
        assert(view.entities.take(0) =~= Seq::<u64>::empty());
        while i < self.entities.len()
            invariant
                i <= self.entities@.len(),
                view == self@,
                j@ == entities_doc(d, view.entities.take(i as int), labels(names@)),
            decreases self.entities@.len() - i,
        {
            assert(view.entities.take(i + 1).drop_last() =~= view.entities.take(i as int));
            let e = self.entities[i];
            j.enter('{');
            j.key("key");
            j.u64_str(e);
            j.key("name");
            j.str(label_of(names, e));
            j.leave('}');
            i = i + 1;
        }
        assert(view.entities.take(i as int) =~= view.entities);
        j.leave(']');
        j.key("traces");
        j.enter('[');
        let ghost d = j@;
        let mut k: usize = 0;
        assert(view.traces.take(0) =~= Seq::<Seq<u8>>::empty());
        while k < self.traces.len()
            invariant
                k <= self.traces@.len(),
                view == self@,
                j@ == traces_doc(d, view.traces.take(k as int)),
            decreases self.traces@.len() - k,
        {
            assert(view.traces.take(k + 1).drop_last() =~= view.traces.take(k as int));
            assert(view.traces[k as int] == self.traces@[k as int]@);
            j.hex(vstd::array::array_as_slice(&self.traces[k]));
            k = k + 1;
        }
        assert(view.traces.take(k as int) =~= view.traces);
        j.leave(']');
        j.key("truncated");
        j.bool(self.truncated);
        j.leave('}');
    }
}

/// What a walk cost: the same four numbers a search reports.
#[derive(Debug, Clone, Copy, PartialEq, Eq, Structural)]
pub struct Stats {
    pub blocks_total: usize,
    pub blocks_scanned: usize,
    pub rows_scanned: usize,
    pub rows_matched: usize,
}

impl Stats {
    /// Nothing counted.
    pub open spec fn none() -> Stats {
        Stats { blocks_total: 0, blocks_scanned: 0, rows_scanned: 0, rows_matched: 0 }
    }
}

impl Default for Stats {
    fn default() -> (s: Stats)
        ensures
            s == Stats::none(),
    {
        Stats { blocks_total: 0, blocks_scanned: 0, rows_scanned: 0, rows_matched: 0 }
    }
}

// ---------------------------------------------------------------------------
// What a block says of its resources.

/// Identities put in the slots of their resource ids, for the first `n` rows.
/// Ids are dense from zero, so there are as many slots as rows; the rows need
/// not be in id order, and an id without a slot is passed over.
pub open spec fn placed(ids: Seq<u16>, keys: Seq<u64>, slots: nat, n: nat) -> Seq<u64>
    decreases n,
{
    if n == 0 {
        Seq::new(slots, |i: int| 0)
    } else {
        let before = placed(ids, keys, slots, (n - 1) as nat);
        if ids[n - 1] < slots {
            before.update(ids[n - 1] as int, keys[n - 1])
        } else {
            before
        }
    }
}

/// The identities of a block's resources, by resource id. A block without the
/// table, or without one of the two columns, has none.
pub open spec fn keys_in(tables: Seq<Named>) -> Seq<u64> {
    match table_named(tables, "resources"@) {
        Some(r) => match (u16s_named(r, "id"@), u64s_named(r, "key"@)) {
            (Some(ids), Some(keys)) => placed(ids, keys, r.rows as nat, r.rows as nat),
            _ => Seq::empty(),
        },
        None => Seq::empty(),
    }
}

/// The resource table of a block, where there is one, has the types it is
/// read by.
pub open spec fn resources_ready(tables: Seq<Named>) -> bool {
    table_named(tables, "resources"@) matches Some(r) ==> {
        &&& r.wf()
        &&& u16s_if_named(r, "id"@)
        &&& u64s_if_named(r, "key"@)
    }
}

proof fn lemma_placed_len(ids: Seq<u16>, keys: Seq<u64>, slots: nat, n: nat)
    ensures
        placed(ids, keys, slots, n).len() == slots,
    decreases n,
{
    if n > 0 {
        lemma_placed_len(ids, keys, slots, (n - 1) as nat);
    }
}

/// The identities of a block's resources, by resource id.
pub fn entity_keys(tables: &[Named]) -> (out: Vec<u64>)
    requires
        resources_ready(tables@),
    ensures
        out@ == keys_in(tables@),
{
    let mut out: Vec<u64> = Vec::new();
    match find_table(tables, "resources") {
        Some(r) => match (u16_column(r, "id"), u64_column(r, "key")) {
            (Some(ids), Some(keys)) => {
                let mut k: usize = 0;
                while k < r.rows
                    invariant
                        k <= r.rows,
                        out@ == Seq::new(k as nat, |i: int| 0u64),
                    decreases r.rows - k,
                {
                    out.push(0);
                    assert(out@ =~= Seq::new((k + 1) as nat, |i: int| 0u64));
                    k = k + 1;
                }
                let mut row: usize = 0;
                assert(out@ =~= placed(ids@, keys@, r.rows as nat, 0));
                while row < r.rows
                    invariant
                        row <= r.rows,
                        ids@.len() == r.rows,
                        keys@.len() == r.rows,
                        out@ == placed(ids@, keys@, r.rows as nat, row as nat),
                    decreases r.rows - row,
                {
                    proof {
                        lemma_placed_len(ids@, keys@, r.rows as nat, row as nat);
                    }
                    let i = ids[row] as usize;
                    if i < out.len() {
                        out.set(i, keys[row]);
                    }
                    row = row + 1;
                }
            },
            _ => {},
        },
        None => {},
    }
    out
}

/// The identity of a resource id, if it has a slot.
pub open spec fn key_in(keys: Seq<u64>, rids: Option<Seq<u16>>, row: int) -> Option<u64> {
    match rids {
        Some(r) => if r[row] < keys.len() {
            Some(keys[r[row] as int])
        } else {
            None
        },
        None => None,
    }
}

/// The identity of the resource of a row.
fn key_at_row(keys: &Vec<u64>, rids: Option<&Vec<u16>>, row: usize) -> (r: Option<u64>)
    requires
        rids matches Some(v) ==> row < v@.len(),
    ensures
        r == key_in(
            keys@,
            match rids {
                Some(v) => Some(v@),
                None => None,
            },
            row as int,
        ),
{
    match rids {
        Some(v) => {
            let i = v[row] as usize;
            if i < keys.len() {
                Some(keys[i])
            } else {
                None
            }
        },
        None => None,
    }
}

/// The texts of a column by 32-bit position.
pub open spec fn text_of(c: Column, row: int) -> Seq<char> {
    match c.data {
        Data::Dict32(keys, values) => values@[keys@[row] as int]@,
        _ => Seq::empty(),
    }
}

/// The names with what one row of a block's resource attributes says. The
/// first name an entity is given stays.
pub open spec fn with_name(
    names: Map<u64, Seq<char>>,
    a: Table,
    parents: Seq<u32>,
    texts: Column,
    keys: Seq<u64>,
    row: int,
) -> Map<u64, Seq<char>> {
    let p = parents[row] as int;
    if key_at(a, row) == "service.name"@ && texts.holds(row) && p < keys.len() && keys[p]
        != NO_IDENTITY && !names.contains_key(keys[p]) {
        names.insert(keys[p], text_of(texts, row))
    } else {
        names
    }
}

/// The names with what the first `n` rows say.
pub open spec fn names_upto(
    names: Map<u64, Seq<char>>,
    a: Table,
    parents: Seq<u32>,
    texts: Column,
    keys: Seq<u64>,
    n: nat,
) -> Map<u64, Seq<char>>
    decreases n,
{
    if n == 0 {
        names
    } else {
        with_name(
            names_upto(names, a, parents, texts, keys, (n - 1) as nat),
            a,
            parents,
            texts,
            keys,
            n - 1,
        )
    }
}

/// The names with what a block says of its resources, whose identities are
/// `keys`.
pub open spec fn with_names(names: Map<u64, Seq<char>>, tables: Seq<Named>, keys: Seq<u64>) -> Map<
    u64,
    Seq<char>,
> {
    match table_named(tables, "resource_attrs"@) {
        Some(a) => match (u32s_named(a, "parent_id"@), a.named("str"@)) {
            (Some(parents), Some(texts)) => names_upto(
                names,
                a,
                parents,
                texts,
                keys,
                a.rows as nat,
            ),
            _ => names,
        },
        None => names,
    }
}

/// The resource attributes of a block, where it has both columns that are
/// read, have the shape they are read by.
pub open spec fn names_ready(tables: Seq<Named>) -> bool {
    table_named(tables, "resource_attrs"@) matches Some(a) ==> {
        &&& a.named("parent_id"@) is Some && a.named("str"@) is Some ==> {
            &&& attrs_shaped(a)
            &&& u32s_named(a, "parent_id"@) is Some
            &&& a.named("str"@)->0.data is Dict32
        }
    }
}

/// The service name of each entity, accumulated across blocks. The first block
/// wins: callers walk newest first, so a renamed service shows the name it has
/// now.
pub fn resource_names(tables: &[Named], keys: &Vec<u64>, out: &mut HashMap<u64, String>)
    requires
        names_ready(tables@),
    ensures
        labels(final(out)@) == with_names(labels(old(out)@), tables@, keys@),
{
    let a = match find_table(tables, "resource_attrs") {
        Some(a) => a,
        None => {
            return;
        },
    };
    let (parents, texts) = match (u32_column(a, "parent_id"), a.column_by_name("str")) {
        (Some(parents), Some(texts)) => (parents, texts),
        _ => {
            return;
        },
    };
    proof {
        lemma_named_is_wf(*a, "str"@);
    }
    let vals = match str_values(texts) {
        Some(v) => v,
        None => {
            return;
        },
    };
    let ghost before = labels(out@);
    let mut row: usize = 0;
    while row < a.rows
        invariant
            row <= a.rows,
            attrs_shaped(*a),
            parents@.len() == a.rows,
            vals.wf(),
            vals.column == texts,
            texts.spec_len() == a.rows,
            labels(out@) == names_upto(before, *a, parents@, *texts, keys@, row as nat),
        decreases a.rows - row,
    {
        if same_text(attr_key(a, row), "service.name") && vals.is_valid(row) {
            let p = parents[row] as usize;
            if p < keys.len() && keys[p] != NO_IDENTITY && !out.contains_key(&keys[p]) {
                let ghost was = out@;
                let name = vals.value(row).to_owned();
                assert(name@ == text_of(*texts, row as int));
                out.insert(keys[p], name);
                assert(labels(out@) =~= labels(was).insert(keys@[p as int], name@));
            }
        }
        row = row + 1;
    }
}

// ---------------------------------------------------------------------------
// Candidates, and what can be read of them.

/// What can be read of a published block: its tables, and its trace filter
/// where that could be read.
pub struct Held {
    pub tables: Vec<Named>,
    pub trace: Option<Vec<u8>>,
}

/// The tables of a candidate.
pub open spec fn tables_of(src: Src, held: Seq<Held>, open: Seq<Open>) -> Seq<Named> {
    match src.origin {
        Origin::Disk(k) => held[k as int].tables@,
        Origin::Open(k) => open[k as int].sealed.tables@,
    }
}

/// The trace filter of a candidate. A snapshot has none.
pub open spec fn trace_of(src: Src, held: Seq<Held>) -> Option<Seq<u8>> {
    match src.origin {
        Origin::Disk(k) => match held[k as int].trace {
            Some(f) => Some(f@),
            None => None,
        },
        Origin::Open(_) => None,
    }
}

pub(crate) fn held_tables<'a>(src: &Src, held: &'a Vec<Held>, open: &'a Vec<Open>) -> (r: &'a [Named])
    requires
        is_here(*src, held@.len(), open@.len()),
    ensures
        r@ == tables_of(*src, held@, open@),
{
    match src.origin {
        Origin::Disk(k) => held[k].tables.as_slice(),
        Origin::Open(k) => open[k].sealed.tables.as_slice(),
    }
}

fn held_trace<'a>(src: &Src, held: &'a Vec<Held>) -> (r: Option<&'a Vec<u8>>)
    requires
        src.origin matches Origin::Disk(k) ==> k < held@.len(),
    ensures
        side_view(r) == trace_of(*src, held@),
{
    match src.origin {
        Origin::Disk(k) => match &held[k].trace {
            Some(f) => Some(f),
            None => None,
        },
        Origin::Open(_) => None,
    }
}

/// The bytes of a sidecar, where there are any.
pub open spec fn side_view(side: Option<&Vec<u8>>) -> Option<Seq<u8>> {
    match side {
        Some(f) => Some(f@),
        None => None,
    }
}

/// The span table of a block, where there is one, has the types it is read by.
pub open spec fn spans_ready(tables: Seq<Named>) -> bool {
    table_named(tables, "spans"@) matches Some(t) ==> {
        &&& t.wf()
        &&& u16s_if_named(t, "resource_id"@)
        &&& times_if_named(t, "start_time_unix_nano"@)
        &&& u64s_if_named(t, "duration_nano"@)
        &&& u8s_if_named(t, "status_code"@)
    }
}

/// Everything of a block that is read here has the types it is read by.
pub open spec fn frame_ready(tables: Seq<Named>) -> bool {
    spans_ready(tables) && resources_ready(tables) && names_ready(tables)
}

fn check_spans(tables: &[Named]) -> (r: bool)
    ensures
        r == spans_ready(tables@),
{
    match find_table(tables, "spans") {
        Some(t) => {
            t.check() && (t.column_by_name("resource_id").is_none() || u16_column(
                t,
                "resource_id",
            ).is_some()) && (t.column_by_name("start_time_unix_nano").is_none() || time_column(
                t,
                "start_time_unix_nano",
            ).is_some()) && (t.column_by_name("duration_nano").is_none() || u64_column(
                t,
                "duration_nano",
            ).is_some()) && (t.column_by_name("status_code").is_none() || u8_column(
                t,
                "status_code",
            ).is_some())
        },
        None => true,
    }
}

fn check_resources(tables: &[Named]) -> (r: bool)
    ensures
        r == resources_ready(tables@),
{
    match find_table(tables, "resources") {
        Some(t) => {
            t.check() && (t.column_by_name("id").is_none() || u16_column(t, "id").is_some()) && (
            t.column_by_name("key").is_none() || u64_column(t, "key").is_some())
        },
        None => true,
    }
}

fn check_names(tables: &[Named]) -> (r: bool)
    ensures
        r == names_ready(tables@),
{
    match find_table(tables, "resource_attrs") {
        Some(t) => match (t.column_by_name("parent_id"), t.column_by_name("str")) {
            (Some(_), Some(texts)) => {
                let is_dict = match &texts.data {
                    Data::Dict32(_, _) => true,
                    _ => false,
                };
                is_dict && check_attrs(t) && u32_column(t, "parent_id").is_some()
            },
            _ => true,
        },
        None => true,
    }
}

/// Decide [`frame_ready`].
pub fn check_frame_tables(tables: &[Named]) -> (r: bool)
    ensures
        r == frame_ready(tables@),
{
    check_spans(tables) && check_resources(tables) && check_names(tables)
}

/// Every block at hand can be read.
pub open spec fn all_ready(held: Seq<Held>, open: Seq<Open>) -> bool {
    &&& forall|i: int| 0 <= i < held.len() ==> frame_ready((#[trigger] held[i]).tables@)
    &&& forall|i: int| 0 <= i < open.len() ==> frame_ready((#[trigger] open[i]).sealed.tables@)
}

proof fn lemma_all_ready(src: Src, held: Seq<Held>, open: Seq<Open>)
    requires
        all_ready(held, open),
        is_here(src, held.len(), open.len()),
    ensures
        frame_ready(tables_of(src, held, open)),
{
}

// ---------------------------------------------------------------------------
// Expansion.

/// One step of a correlation walk.
#[derive(Debug, Clone, Copy, PartialEq, Eq, Structural)]
pub enum Expand {
    /// Widen the window to the full extent of the traces in the frame. The
    /// extent is measured: a window taken from the row that matched usually
    /// cuts the trace in half.
    Traces,
    /// Widen the entities to everything that took part in the frame's traces.
    Peers,
    /// Widen the window by this many nanoseconds on both sides.
    Around(i64),
}

/// A number, held within what 64 bits can say.
pub open spec fn clamped(i: int) -> i64 {
    if i < i64::MIN {
        i64::MIN
    } else if i > i64::MAX {
        i64::MAX
    } else {
        i as i64
    }
}

fn clamp_sum(a: i64, b: i64) -> (r: i64)
    ensures
        r == clamped(a + b),
{
    let s: i128 = a as i128 + b as i128;
    if s < i64::MIN as i128 {
        i64::MIN
    } else if s > i64::MAX as i128 {
        i64::MAX
    } else {
        s as i64
    }
}

/// When a span that starts at `a` and lasts `d` is over.
fn clamp_end(a: i64, d: u64) -> (r: i64)
    ensures
        r == clamped(a + d),
{
    let s: i128 = a as i128 + d as i128;
    if s > i64::MAX as i128 {
        i64::MAX
    } else {
        s as i64
    }
}

fn clamp_difference(a: i64, b: i64) -> (r: i64)
    ensures
        r == clamped(a - b),
{
    let s: i128 = a as i128 - b as i128;
    if s < i64::MIN as i128 {
        i64::MIN
    } else if s > i64::MAX as i128 {
        i64::MAX
    } else {
        s as i64
    }
}

/// Whether a block could hold any of these traces. Where there is no filter to
/// ask it could.
pub open spec fn could_hold(side: Option<Seq<u8>>, traces: Seq<Seq<u8>>) -> bool {
    match side {
        Some(f) => exists|i: int| 0 <= i < traces.len() && maybe(f, #[trigger] traces[i]),
        None => true,
    }
}

/// Could this block hold any of these traces? Fails open, like every sidecar.
pub fn may_hold(side: Option<&Vec<u8>>, traces: &Vec<[u8; 16]>) -> (r: bool)
    ensures
        r == could_hold(side_view(side), ids_of(traces@)),
{
    match side {
        Some(f) => {
            let mut i: usize = 0;
            while i < traces.len()
                invariant
                    i <= traces@.len(),
                    side == Some(f),
                    forall|k: int| 0 <= k < i ==> !maybe(f@, #[trigger] ids_of(traces@)[k]),
                decreases traces@.len() - i,
            {
                let hit = may_contain(f.as_slice(), &traces[i]);
                assert(hit == maybe(f@, ids_of(traces@)[i as int]));
                if hit {
                    return true;
                }
                i = i + 1;
            }
            false
        },
        None => true,
    }
}

/// A walk over spans: the frame and the counts so far, and the extent measured.
#[verifier::ext_equal]
pub struct WalkState {
    pub frame: Region,
    pub stats: Stats,
    pub lo: i64,
    pub hi: i64,
}

/// Where a span starts, and how long it lasts.
pub open spec fn start_at(t: Table, row: int) -> i64 {
    match times_named(t, "start_time_unix_nano"@) {
        Some(v) => v[row],
        None => 0,
    }
}

pub open spec fn duration_at(t: Table, row: int) -> u64 {
    match u64s_named(t, "duration_nano"@) {
        Some(v) => v[row],
        None => 0,
    }
}

/// The walk with one span of the frame's traces.
pub open spec fn walk_row(w: WalkState, t: Table, keys: Seq<u64>, op: Expand, row: int) -> WalkState {
    let stats = Stats { rows_matched: w.stats.rows_matched.wrapping_add(1), ..w.stats };
    if op == Expand::Peers {
        WalkState {
            frame: match key_in(keys, u16s_named(t, "resource_id"@), row) {
                Some(k) => w.frame.with_entity(k),
                None => w.frame,
            },
            stats,
            ..w
        }
    } else {
        let s = start_at(t, row);
        let e = clamped(s + duration_at(t, row));
        WalkState {
            stats,
            lo: if s < w.lo {
                s
            } else {
                w.lo
            },
            hi: if e > w.hi {
                e
            } else {
                w.hi
            },
            ..w
        }
    }
}

/// Whether a span belongs to one of the frame's traces.
pub open spec fn is_of_traces(ids: Column, traces: Seq<Seq<u8>>, row: int) -> bool {
    ids.holds(row) && traces.contains(fixed_values(ids)[row]@)
}

/// The walk with the first `n` spans of a table.
pub open spec fn walk_rows(
    w: WalkState,
    t: Table,
    ids: Column,
    keys: Seq<u64>,
    op: Expand,
    n: nat,
) -> WalkState
    decreases n,
{
    if n == 0 {
        w
    } else {
        let before = walk_rows(w, t, ids, keys, op, (n - 1) as nat);
        if is_of_traces(ids, w.frame.traces, n - 1) {
            walk_row(before, t, keys, op, n - 1)
        } else {
            before
        }
    }
}

/// The walk with one block. A block without a span table, or whose spans do not
/// say which trace they are of, contributes nothing.
pub open spec fn walk_block(w: WalkState, tables: Seq<Named>, op: Expand) -> WalkState {
    match table_named(tables, "spans"@) {
        Some(t) => match fixed_named(t, "trace_id"@) {
            Some(ids) => walk_rows(
                WalkState {
                    stats: Stats {
                        blocks_scanned: w.stats.blocks_scanned.wrapping_add(1),
                        rows_scanned: w.stats.rows_scanned.wrapping_add(t.rows),
                        ..w.stats
                    },
                    ..w
                },
                t,
                ids,
                keys_in(tables),
                op,
                t.rows as nat,
            ),
            None => w,
        },
        None => w,
    }
}

/// Whether a walk has to read a candidate. Measuring the extent of a trace does
/// not look at the window: a trace id says nothing about when.
pub open spec fn walk_reads(src: Src, side: Option<Seq<u8>>, f: Region, op: Expand) -> bool {
    (op == Expand::Peers ==> src.meets(f.from, f.to)) && could_hold(side, f.traces)
}

/// The walk with the first `n` candidates.
pub open spec fn walk_all(
    w: WalkState,
    refs: Seq<Src>,
    held: Seq<Held>,
    open: Seq<Open>,
    op: Expand,
    n: nat,
) -> WalkState
    decreases n,
{
    if n == 0 {
        w
    } else {
        let before = walk_all(w, refs, held, open, op, (n - 1) as nat);
        let src = refs[n - 1];
        if walk_reads(src, trace_of(src, held), w.frame, op) {
            walk_block(before, tables_of(src, held, open), op)
        } else {
            before
        }
    }
}

/// A walk that sets out.
pub open spec fn walk_start(f: Region, st: Stats, blocks: nat) -> WalkState {
    WalkState {
        frame: f,
        stats: Stats { blocks_total: st.blocks_total.wrapping_add(blocks as usize), ..st },
        lo: i64::MAX,
        hi: i64::MIN,
    }
}

/// The frame at the end of a walk: the window reaches as far as what was
/// measured.
pub open spec fn walk_end(w: WalkState, op: Expand) -> Region {
    if op == Expand::Traces && w.lo <= w.hi {
        Region {
            from: if w.lo < w.frame.from {
                w.lo
            } else {
                w.frame.from
            },
            to: if w.hi > w.frame.to {
                w.hi
            } else {
                w.frame.to
            },
            ..w.frame
        }
    } else {
        w.frame
    }
}

/// The frame and the counts after a walk over the spans of its traces. Without
/// traces there is nothing to walk: "everything that shared a trace with
/// nothing" would be every entity there is.
pub open spec fn walked(
    f: Region,
    st: Stats,
    op: Expand,
    refs: Seq<Src>,
    held: Seq<Held>,
    open: Seq<Open>,
) -> (Region, Stats) {
    if f.traces.len() == 0 {
        (f, st)
    } else {
        let w = walk_all(walk_start(f, st, refs.len()), refs, held, open, op, refs.len());
        (walk_end(w, op), w.stats)
    }
}

/// A walk over the spans of a frame's traces, block by block.
pub struct Walk {
    pub frame: Frame,
    pub stats: Stats,
    pub lo: i64,
    pub hi: i64,
}

impl View for Walk {
    type V = WalkState;

    open spec fn view(&self) -> WalkState {
        WalkState { frame: self.frame@, stats: self.stats, lo: self.lo, hi: self.hi }
    }
}

impl Walk {
    /// Set out over this many candidates.
    pub fn new(f: Frame, st: Stats, blocks: usize) -> (r: Walk)
        ensures
            r@ == walk_start(f@, st, blocks as nat),
    {
        Walk {
            frame: f,
            stats: Stats { blocks_total: st.blocks_total.wrapping_add(blocks), ..st },
            lo: i64::MAX,
            hi: i64::MIN,
        }
    }

    /// Whether a candidate has to be read.
    pub fn reads(&self, src: &Src, side: Option<&Vec<u8>>, op: Expand) -> (r: bool)
        ensures
            r == walk_reads(*src, side_view(side), self@.frame, op),
    {
        (op != Expand::Peers || src.overlaps(self.frame.from, self.frame.to)) && may_hold(
            side,
            &self.frame.traces,
        )
    }

    fn row(&mut self, t: &Table, keys: &Vec<u64>, op: Expand, row: usize)
        requires
            t.wf(),
            row < t.rows,
        ensures
            final(self)@ == walk_row(old(self)@, *t, keys@, op, row as int),
    {
        self.stats.rows_matched = self.stats.rows_matched.wrapping_add(1);
        if op == Expand::Peers {
            if let Some(k) = key_at_row(keys, u16_column(t, "resource_id"), row) {
                self.frame.add_entity(k);
            }
        } else {
            let s = match time_column(t, "start_time_unix_nano") {
                Some(v) => v[row],
                None => 0,
            };
            let d: u64 = match u64_column(t, "duration_nano") {
                Some(v) => v[row],
                None => 0,
            };
            let e = clamp_end(s, d);
            if s < self.lo {
                self.lo = s;
            }
            if e > self.hi {
                self.hi = e;
            }
        }
    }

    /// Take in the tables of one candidate.
    pub fn block(&mut self, tables: &[Named], op: Expand)
        requires
            frame_ready(tables@),
        ensures
            final(self)@ == walk_block(old(self)@, tables@, op),
    {
        let t = match find_table(tables, "spans") {
            Some(t) => t,
            None => {
                return;
            },
        };
        let (ids, vals) = match fixed_column(t, "trace_id") {
            Some(p) => p,
            None => {
                return;
            },
        };
        self.stats.blocks_scanned = self.stats.blocks_scanned.wrapping_add(1);
        self.stats.rows_scanned = self.stats.rows_scanned.wrapping_add(t.rows);
        let keys = entity_keys(tables);
        let ghost w = self@;
        let mut row: usize = 0;
        while row < t.rows
            invariant
                row <= t.rows,
                t.wf(),
                ids.wf(),
                ids.spec_len() == t.rows,
                vals@ == fixed_values(*ids),
                vals@.len() == t.rows,
                self@ == walk_rows(w, *t, *ids, keys@, op, row as nat),
                self@.frame.traces == w.frame.traces,
            decreases t.rows - row,
        {
            if ids.is_valid(row) && has_trace(&self.frame.traces, vals[row].as_slice()) {
                self.row(t, &keys, op, row);
            }
            row = row + 1;
        }
    }

    /// The frame and the counts.
    pub fn finish(self, op: Expand) -> (r: (Frame, Stats))
        ensures
            r.0@ == walk_end(self@, op),
            r.1 == self.stats,
    {
        let mut f = self.frame;
        if op == Expand::Traces && self.lo <= self.hi {
            if self.lo < f.from {
                f.from = self.lo;
            }
            if self.hi > f.to {
                f.to = self.hi;
            }
        }
        (f, self.stats)
    }
}

proof fn lemma_walk_keeps_traces(w: WalkState, t: Table, ids: Column, keys: Seq<u64>, op: Expand, n: nat)
    ensures
        walk_rows(w, t, ids, keys, op, n).frame.traces == w.frame.traces,
        walk_rows(w, t, ids, keys, op, n).frame.from == w.frame.from,
        walk_rows(w, t, ids, keys, op, n).frame.to == w.frame.to,
    decreases n,
{
    if n > 0 {
        lemma_walk_keeps_traces(w, t, ids, keys, op, (n - 1) as nat);
    }
}

proof fn lemma_block_keeps_traces(w: WalkState, tables: Seq<Named>, op: Expand)
    ensures
        walk_block(w, tables, op).frame.traces == w.frame.traces,
        walk_block(w, tables, op).frame.from == w.frame.from,
        walk_block(w, tables, op).frame.to == w.frame.to,
{
    if let Some(t) = table_named(tables, "spans"@) {
        if let Some(ids) = fixed_named(t, "trace_id"@) {
            lemma_walk_keeps_traces(
                WalkState {
                    stats: Stats {
                        blocks_scanned: w.stats.blocks_scanned.wrapping_add(1),
                        rows_scanned: w.stats.rows_scanned.wrapping_add(t.rows),
                        ..w.stats
                    },
                    ..w
                },
                t,
                ids,
                keys_in(tables),
                op,
                t.rows as nat,
            );
        }
    }
}

/// The one pass that both span-side expanders need: every span of the frame's
/// traces, with its start, its duration and its resource.
pub fn walk_spans(
    f: Frame,
    op: Expand,
    refs: &Vec<Src>,
    held: &Vec<Held>,
    open: &Vec<Open>,
    st: Stats,
) -> (r: (Frame, Stats))
    requires
        all_ready(held@, open@),
        forall|i: int| 0 <= i < refs@.len() ==> is_here(#[trigger] refs@[i], held@.len(), open@.len()),
    ensures
        (r.0@, r.1) == walked(f@, st, op, refs@, held@, open@),
{
    if f.traces.len() == 0 {
        return (f, st);
    }
    let ghost start = walk_start(f@, st, refs@.len());
    let mut w = Walk::new(f, st, refs.len());
    let mut i: usize = 0;
    while i < refs.len()
        invariant
            i <= refs@.len(),
            all_ready(held@, open@),
            forall|i: int|
                0 <= i < refs@.len() ==> is_here(#[trigger] refs@[i], held@.len(), open@.len()),
            w@ == walk_all(start, refs@, held@, open@, op, i as nat),
            w@.frame.traces == start.frame.traces,
            w@.frame.from == start.frame.from,
            w@.frame.to == start.frame.to,
        decreases refs@.len() - i,
    {
        assert(is_here(refs@[i as int], held@.len(), open@.len()));
        let src = &refs[i];
        if w.reads(src, held_trace(src, held), op) {
            let tables = held_tables(src, held, open);
            proof {
                lemma_all_ready(*src, held@, open@);
                lemma_block_keeps_traces(w@, tables@, op);
            }
            w.block(tables, op);
        }
        i = i + 1;
    }
    w.finish(op)
}

/// The frame and the counts after one step.
pub open spec fn stepped(
    f: Region,
    st: Stats,
    op: Expand,
    refs: Seq<Src>,
    held: Seq<Held>,
    open: Seq<Open>,
) -> (Region, Stats) {
    match op {
        Expand::Around(d) => (
            Region { from: clamped(f.from - d), to: clamped(f.to + d), ..f },
            st,
        ),
        _ => walked(f, st, op, refs, held, open),
    }
}

/// The frame and the counts after some steps, in order.
pub open spec fn expanded(
    f: Region,
    st: Stats,
    ops: Seq<Expand>,
    refs: Seq<Src>,
    held: Seq<Held>,
    open: Seq<Open>,
) -> (Region, Stats)
    decreases ops.len(),
{
    if ops.len() == 0 {
        (f, st)
    } else {
        let before = expanded(f, st, ops.drop_last(), refs, held, open);
        stepped(before.0, before.1, ops.last(), refs, held, open)
    }
}

fn copy_frame(f: &Frame) -> (r: Frame)
    ensures
        r@ == f@,
{
    let r = Frame {
        from: f.from,
        to: f.to,
        entities: copy_all(&f.entities),
        traces: copy_all(&f.traces),
        truncated: f.truncated,
    };
    assert(r@.entities =~= f@.entities);
    assert(r@.traces =~= f@.traces);
    r
}

/// Apply a walk to a frame, in order: the steps do not commute.
pub fn expand(
    disk: &Vec<BlockRef>,
    held: &Vec<Held>,
    f: &Frame,
    ops: &Vec<Expand>,
    open: &Vec<Open>,
) -> (r: (Frame, Stats))
    requires
        disk@.len() == held@.len(),
        all_ready(held@, open@),
    ensures
        (r.0@, r.1) == expanded(
            f@,
            Stats::none(),
            ops@,
            all_sources(disk@, open@),
            held@,
            open@,
        ),
{
    let refs = sources(disk, open);
    assert(disk.len() <= usize::MAX);
    assert(open.len() <= usize::MAX);
    proof {
        crate::search::lemma_sources_here(disk@, open@);
    }
    let mut f = copy_frame(f);
    let mut st = Stats::default();
    let ghost start = f@;
    let mut i: usize = 0;
    assert(ops@.take(0) =~= Seq::<Expand>::empty());
    while i < ops.len()
        invariant
            i <= ops@.len(),
            all_ready(held@, open@),
            forall|i: int|
                0 <= i < refs@.len() ==> is_here(#[trigger] refs@[i], held@.len(), open@.len()),
            (f@, st) == expanded(start, Stats::none(), ops@.take(i as int), refs@, held@, open@),
        decreases ops@.len() - i,
    {
        assert(ops@.take(i + 1).drop_last() =~= ops@.take(i as int));
        match ops[i] {
            Expand::Around(d) => {
                f.from = clamp_difference(f.from, d);
                f.to = clamp_sum(f.to, d);
            },
            op => {
                let (g, now) = walk_spans(f, op, &refs, held, open, st);
                f = g;
                st = now;
            },
        }
        i = i + 1;
    }
    assert(ops@.take(i as int) =~= ops@);
    (f, st)
}

// ---------------------------------------------------------------------------
// Candidates of a window, newest first.

/// The candidates among the first `n` whose range meets a window.
pub open spec fn within_upto(all: Seq<Src>, from: i64, to: i64, n: nat) -> Seq<Src>
    decreases n,
{
    if n == 0 {
        Seq::empty()
    } else if all[n - 1].meets(from, to) {
        within_upto(all, from, to, (n - 1) as nat).push(all[n - 1])
    } else {
        within_upto(all, from, to, (n - 1) as nat)
    }
}

/// The candidates whose range meets a window, newest first.
pub open spec fn newest(all: Seq<Src>, from: i64, to: i64) -> Seq<Src> {
    ranked(within_upto(all, from, to, all.len()))
}

/// The candidates whose range meets a window, newest first.
pub fn newest_within(all: &Vec<Src>, from: i64, to: i64) -> (r: Vec<Src>)
    ensures
        r@ == newest(all@, from, to),
{
    let mut out: Vec<Src> = Vec::new();
    let mut i: usize = 0;
    while i < all.len()
        invariant
            i <= all@.len(),
            out@ == within_upto(all@, from, to, i as nat),
        decreases all@.len() - i,
    {
        if all[i].overlaps(from, to) {
            out.push(all[i]);
        }
        i = i + 1;
    }
    sort_ranked(out)
}

proof fn lemma_within_members(all: Seq<Src>, from: i64, to: i64, n: nat, x: Src)
    requires
        n <= all.len(),
    ensures
        within_upto(all, from, to, n).contains(x) <==> all.take(n as int).contains(x) && x.meets(from, to),
    decreases n,
{
    let now = within_upto(all, from, to, n);
    if n > 0 {
        lemma_within_members(all, from, to, (n - 1) as nat, x);
        let before = within_upto(all, from, to, (n - 1) as nat);
        let shorter = all.take(n - 1);
        let longer = all.take(n as int);
        assert(longer[n - 1] == all[n - 1]);
        if shorter.contains(x) {
            let k = shorter.index_of(x);
            assert(longer[k] == x);
        }
        if longer.contains(x) && all[n - 1] != x {
            let k = longer.index_of(x);
            assert(shorter[k] == x);
        }
        if all[n - 1].meets(from, to) {
            assert(now[now.len() - 1] == all[n - 1]);
            if before.contains(x) {
                let k = before.index_of(x);
                assert(now[k] == x);
            }
            if now.contains(x) && all[n - 1] != x {
                let k = now.index_of(x);
                assert(before[k] == x);
            }
        }
    }
}

/// A candidate is read for a window exactly if its range meets the window.
pub proof fn law_a_window_reads_what_meets_it(all: Seq<Src>, from: i64, to: i64, x: Src)
    ensures
        newest(all, from, to).contains(x) <==> all.contains(x) && x.meets(from, to),
{
    lemma_within_members(all, from, to, all.len(), x);
    assert(all.take(all.len() as int) =~= all);
    crate::sort::lemma_ranked_contains(within_upto(all, from, to, all.len()), x);
}

/// What is read for a window is at hand where every candidate is.
pub proof fn lemma_newest_here(all: Seq<Src>, from: i64, to: i64, held: nat, open: nat)
    requires
        forall|i: int| 0 <= i < all.len() ==> is_here(#[trigger] all[i], held, open),
    ensures
        forall|i: int|
            0 <= i < newest(all, from, to).len() ==> is_here(
                #[trigger] newest(all, from, to)[i],
                held,
                open,
            ),
{
    let r = newest(all, from, to);
    assert forall|i: int| 0 <= i < r.len() implies is_here(#[trigger] r[i], held, open) by {
        law_a_window_reads_what_meets_it(all, from, to, r[i]);
        assert(r.contains(r[i]));
        let k = all.index_of(r[i]);
        assert(all[k] == r[i]);
    }
}

// ---------------------------------------------------------------------------
// Anchoring.

/// The frame with the trace and the entity of one row added.
pub open spec fn with_row(f: Region, root: Table, keys: Seq<u64>, row: int) -> Region {
    let g = match fixed_named(root, "trace_id"@) {
        Some(c) => if c.holds(row) {
            f.with_trace(fixed_values(c)[row]@)
        } else {
            f
        },
        None => f,
    };
    match key_in(keys, u16s_named(root, "resource_id"@), row) {
        Some(k) => g.with_entity(k),
        None => g,
    }
}

/// The frame with what some rows name added.
pub open spec fn with_rows(f: Region, root: Table, keys: Seq<u64>, rows: Seq<u32>) -> Region
    decreases rows.len(),
{
    if rows.len() == 0 {
        f
    } else {
        with_row(with_rows(f, root, keys, rows.drop_last()), root, keys, rows.last() as int)
    }
}

/// The rows of a candidate that a search matches, whatever page they are on;
/// `None` where the sidecars rule the candidate out or its root table is gone.
pub open spec fn matched(q: Search, src: Src, sides: Sides, b: Option<Block>, floats: Floats) -> Option<
    Seq<u32>,
> {
    match b {
        Some(x) => if ruled_out(q, sides, floats) {
            None
        } else {
            Some(x.selected(q, src, floats))
        },
        None => None,
    }
}

/// The rows of a candidate that a search matches.
pub fn match_block(
    prepared: &Prepared,
    src: &Src,
    sides: &Sides,
    b: Option<&Block>,
    floats: &Floats,
) -> (r: Option<Vec<u32>>)
    requires
        prepared.wf(*floats),
        floats.wf(),
        b matches Some(x) ==> x.wf(),
    ensures
        ({
            let want = matched(
                *prepared.q,
                *src,
                *sides,
                match b {
                    Some(x) => Some(*x),
                    None => None,
                },
                *floats,
            );
            &&& r is Some <==> want is Some
            &&& r matches Some(v) ==> want == Some(v@)
        }),
        r matches Some(v) ==> (b matches Some(x) && forall|i: int|
            0 <= i < v@.len() ==> (#[trigger] v@[i]) < x.root.rows),
{
    match b {
        Some(x) => {
            if prepared.rules_out(sides, floats) {
                return None;
            }
            let q = prepared.q;
            let covered = q.from <= src.min_ts && q.to >= src.max_ts;
            let rows = x.select(q, covered, floats);
            proof {
                crate::select::lemma_filter_members(
                    all_rows(x.root.rows as nat),
                    |i: u32| x.selects(i as int, *q, covered, *floats),
                    x.root.rows as nat,
                );
            }
            assert(rows@ == x.selected(*q, *src, *floats));
            Some(rows)
        },
        None => None,
    }
}

/// An anchoring: the frame and the counts so far.
#[verifier::ext_equal]
pub struct AnchorState {
    pub frame: Region,
    pub stats: Stats,
}

/// The anchoring with one candidate: how many rows its root table has, which of
/// them matched, and the identities of its resources.
pub open spec fn anchor_block(
    a: AnchorState,
    root: Table,
    rows: Option<Seq<u32>>,
    keys: Seq<u64>,
) -> AnchorState {
    match rows {
        Some(v) => AnchorState {
            frame: with_rows(a.frame, root, keys, v),
            stats: Stats {
                blocks_scanned: a.stats.blocks_scanned.wrapping_add(1),
                rows_scanned: a.stats.rows_scanned.wrapping_add(root.rows),
                rows_matched: a.stats.rows_matched.wrapping_add(v.len() as usize),
                ..a.stats
            },
        },
        None => a,
    }
}

/// An anchoring under way.
pub struct Anchor {
    pub frame: Frame,
    pub stats: Stats,
}

impl View for Anchor {
    type V = AnchorState;

    open spec fn view(&self) -> AnchorState {
        AnchorState { frame: self.frame@, stats: self.stats }
    }
}

impl Anchor {
    /// Start with a window and this many candidates.
    pub fn new(from: i64, to: i64, blocks: usize) -> (r: Anchor)
        ensures
            r@ == anchor_start(from, to, blocks as nat),
    {
        let r = Anchor {
            frame: Frame { from, to, ..Frame::default() },
            stats: Stats { blocks_total: blocks, ..Stats::default() },
        };
        assert(r@ =~= anchor_start(from, to, blocks as nat));
        r
    }

    /// Take in one candidate.
    pub fn absorb(&mut self, root: &Table, rows: &Vec<u32>, keys: &Vec<u64>)
        requires
            root.wf(),
            forall|i: int| 0 <= i < rows@.len() ==> (#[trigger] rows@[i]) < root.rows,
        ensures
            final(self)@ == anchor_block(old(self)@, *root, Some(rows@), keys@),
    {
        self.stats.blocks_scanned = self.stats.blocks_scanned.wrapping_add(1);
        self.stats.rows_scanned = self.stats.rows_scanned.wrapping_add(root.rows);
        self.stats.rows_matched = self.stats.rows_matched.wrapping_add(rows.len());
        let traces = fixed_column(root, "trace_id");
        let rids = u16_column(root, "resource_id");
        let ghost f = self.frame@;
        let ghost st = self.stats;
        let mut i: usize = 0;
        assert(rows@.take(0) =~= Seq::<u32>::empty());
        while i < rows.len()
            invariant
                i <= rows@.len(),
                forall|i: int| 0 <= i < rows@.len() ==> (#[trigger] rows@[i]) < root.rows,
                traces is Some <==> fixed_named(*root, "trace_id"@) is Some,
                traces matches Some((c, v)) ==> fixed_named(*root, "trace_id"@) == Some(*c) && v@
                    == fixed_values(*c) && c.wf() && v@.len() == root.rows && c.spec_len()
                    == root.rows,
                rids is Some <==> u16s_named(*root, "resource_id"@) is Some,
                rids matches Some(v) ==> u16s_named(*root, "resource_id"@) == Some(v@) && v@.len()
                    == root.rows,
                self.stats == st,
                self.frame@ == with_rows(f, *root, keys@, rows@.take(i as int)),
            decreases rows@.len() - i,
        {
            assert(rows@.take(i + 1).drop_last() =~= rows@.take(i as int));
            assert(rows@[i as int] < root.rows);
            let row = rows[i] as usize;
            if let Some((c, v)) = traces {
                if c.is_valid(row) {
                    self.frame.add_trace(v[row].as_slice());
                }
            }
            if let Some(k) = key_at_row(keys, rids, row) {
                self.frame.add_entity(k);
            }
            i = i + 1;
        }
        assert(rows@.take(i as int) =~= rows@);
    }
}

/// An anchoring that starts.
pub open spec fn anchor_start(from: i64, to: i64, blocks: nat) -> AnchorState {
    AnchorState {
        frame: Region::window(from, to),
        stats: Stats { blocks_total: blocks as usize, ..Stats::none() },
    }
}

/// An anchoring that goes on at candidate `i`. Once a cap has dropped something
/// it ends: reading further would only drop more.
pub open spec fn anchor_from(
    a: AnchorState,
    refs: Seq<Src>,
    stored: Seq<crate::search::Stored>,
    held: Seq<Held>,
    open: Seq<Open>,
    opened: Seq<Option<Block>>,
    q: Search,
    floats: Floats,
    i: nat,
) -> AnchorState
    decreases refs.len() - i,
{
    if i >= refs.len() || a.frame.truncated {
        a
    } else {
        let src = refs[i as int];
        let b = crate::search::block_of(src, stored, opened);
        let rows = matched(q, src, crate::search::sides_of(src, stored), b, floats);
        let next = match b {
            Some(x) => anchor_block(a, *x.root, rows, keys_in(tables_of(src, held, open))),
            None => a,
        };
        anchor_from(next, refs, stored, held, open, opened, q, floats, i + 1)
    }
}

/// The anchoring of a search over all its candidates, newest first.
pub open spec fn anchored(
    disk: Seq<BlockRef>,
    stored: Seq<crate::search::Stored>,
    held: Seq<Held>,
    open: Seq<Open>,
    opened: Seq<Option<Block>>,
    q: Search,
    floats: Floats,
) -> AnchorState {
    let all = all_sources(disk, open);
    anchor_from(
        anchor_start(q.from, q.to, all.len()),
        newest(all, q.from, q.to),
        stored,
        held,
        open,
        opened,
        q,
        floats,
        0,
    )
}

/// Where an investigation starts: the frame around what a search matched. The
/// search's limit and page do not matter here: a frame is bounded by its own
/// caps. Newest blocks come first, so a store far larger than the caps is
/// sampled from the end someone is looking at.
pub fn anchor(
    disk: &Vec<BlockRef>,
    stored: &Vec<crate::search::Stored>,
    held: &Vec<Held>,
    q: &Search,
    open: &Vec<Open>,
    opened: &Vec<Option<Block>>,
    floats: &Floats,
) -> (r: (Frame, Stats))
    requires
        disk@.len() == stored@.len(),
        disk@.len() == held@.len(),
        open@.len() == opened@.len(),
        crate::search::all_wf(stored@, opened@),
        all_ready(held@, open@),
        floats.wf(),
    ensures
        ({
            let end = anchored(disk@, stored@, held@, open@, opened@, *q, *floats);
            r.0@ == end.frame && r.1 == end.stats
        }),
{
    let all = sources(disk, open);
    assert(disk.len() <= usize::MAX);
    assert(open.len() <= usize::MAX);
    proof {
        crate::search::lemma_sources_here(disk@, open@);
        lemma_newest_here(all@, q.from, q.to, disk@.len(), open@.len());
    }
    let refs = newest_within(&all, q.from, q.to);
    let prepared = Prepared::new(q, floats);
    let mut a = Anchor::new(q.from, q.to, all.len());
    let ghost end = anchor_from(
        a@,
        refs@,
        stored@,
        held@,
        open@,
        opened@,
        *q,
        *floats,
        0,
    );
    let mut i: usize = 0;
    while i < refs.len() && !a.frame.truncated
        invariant
            i <= refs@.len(),
            disk@.len() == stored@.len(),
            disk@.len() == held@.len(),
            open@.len() == opened@.len(),
            crate::search::all_wf(stored@, opened@),
            all_ready(held@, open@),
            floats.wf(),
            prepared.wf(*floats),
            prepared.q == q,
            forall|i: int|
                0 <= i < refs@.len() ==> is_here(#[trigger] refs@[i], disk@.len(), open@.len()),
            end == anchor_from(
                a@,
                refs@,
                stored@,
                held@,
                open@,
                opened@,
                *q,
                *floats,
                i as nat,
            ),
        decreases refs@.len() - i,
    {
        assert(is_here(refs@[i as int], disk@.len(), open@.len()));
        let src = &refs[i];
        let b = crate::search::pick(src, stored, opened);
        let none = Sides { trace: None, attrs: None, ranges: None };
        let sides = match src.origin {
            Origin::Disk(k) => &stored[k].sides,
            Origin::Open(_) => &none,
        };
        if let Some(x) = b {
            assert(x.wf());
            if let Some(rows) = match_block(&prepared, src, sides, Some(x), floats) {
                let tables = held_tables(src, held, open);
                proof {
                    lemma_all_ready(*src, held@, open@);
                }
                let keys = entity_keys(tables);
                a.absorb(x.root, &rows, &keys);
            }
        }
        i = i + 1;
    }
    (a.frame, a.stats)
}

// ---------------------------------------------------------------------------
// The service map.

/// A service map over a window, from the newest blocks and no more than
/// `max_spans` spans of them, to the block.
pub fn map(
    disk: &Vec<BlockRef>,
    held: &Vec<Held>,
    from: i64,
    to: i64,
    max_spans: usize,
    open: &Vec<Open>,
) -> (r: Results)
    requires
        disk@.len() == held@.len(),
        all_ready(held@, open@),
    ensures
        ({
            let all = all_sources(disk@, open@);
            is_map(
                r,
                map_from(
                    MapState::start(all.len()),
                    newest(all, from, to),
                    held@,
                    open@,
                    from,
                    to,
                    max_spans,
                    0,
                ),
            )
        }),
{
    assert(disk.len() <= usize::MAX);
    assert(open.len() <= usize::MAX);
    let mut run = MapRun::plan(disk, open, from, to, max_spans);
    let ghost refs = run.refs@;
    proof {
        crate::search::lemma_sources_here(disk@, open@);
        lemma_newest_here(all_sources(disk@, open@), from, to, disk@.len(), open@.len());
    }
    let ghost end = map_from(run@, refs, held@, open@, from, to, max_spans, 0);
    loop
        invariant
            run.wf(),
            run.refs@ == refs,
            run.from == from,
            run.to == to,
            run.max_spans == max_spans,
            disk@.len() == held@.len(),
            all_ready(held@, open@),
            forall|i: int|
                0 <= i < refs.len() ==> is_here(#[trigger] refs[i], disk@.len(), open@.len()),
            end == map_from(run@, refs, held@, open@, from, to, max_spans, run.at as nat),
        ensures
            run@ == end,
        decreases refs.len() - run.at,
    {
        match run.wants() {
            Some(src) => {
                assert(is_here(refs[run.at as int], disk@.len(), open@.len()));
                let tables = held_tables(&src, held, open);
                assert(frame_ready(tables@));
                run.absorb(tables);
            },
            None => {
                break;
            },
        }
    }
    run.finish()
}

} // verus!
