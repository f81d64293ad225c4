//! Opening a block: finding the tables a scan joins, and indexing them.

use crate::attrfilter::{attrs_shaped, check_attrs};
use crate::query::Signal;
use crate::scan::{
    find_table, index_by_parent, index_parent_of_id, scannable_root, table_named, time_column,
    u16_column, Attrs, Block, Child, Named,
};
use crate::table::{Data, Table};
use vstd::prelude::*;

verus! {

/// The child tables of each signal: emitted name, row table, attribute table.
pub open spec fn child_names(signal: Signal) -> Seq<(Seq<char>, Seq<char>, Seq<char>)> {
    match signal {
        Signal::Logs => Seq::empty(),
        Signal::Traces => seq![
            ("events"@, "span_events"@, "span_event_attrs"@),
            ("links"@, "span_links"@, "span_link_attrs"@),
        ],
    }
}

/// The child tables of each signal: emitted name, row table, attribute table.
///
/// Links are the out-edge of the correlation graph: a link's `trace_id` points
/// at another trace. Events are a span's log lines.
pub fn child_tables(signal: Signal) -> (r: Vec<(&'static str, &'static str, &'static str)>)
    ensures
        r@.len() == child_names(signal).len(),
        forall|i: int|
            0 <= i < r@.len() ==> ((#[trigger] r@[i]).0@, r@[i].1@, r@[i].2@) == child_names(signal)[i],
{
    let mut out: Vec<(&'static str, &'static str, &'static str)> = Vec::new();
    match signal {
        Signal::Logs => {},
        Signal::Traces => {
            out.push(("events", "span_events", "span_event_attrs"));
            out.push(("links", "span_links", "span_link_attrs"));
        },
    }
    out
}

/// An attribute table that is absent, or of the shape one has.
pub open spec fn attrs_ready(t: Option<Table>) -> bool {
    t matches Some(a) ==> attrs_shaped(a)
}

/// A table of children that is absent, or can be joined.
pub open spec fn rows_ready(t: Option<Table>) -> bool {
    t matches Some(rows) ==> rows.wf() && rows.rows < u32::MAX
}

/// Tables that can be opened as a block: the root table scannable, and every
/// table that is joined to it of the shape it should have.
pub open spec fn block_ready(tables: Seq<Named>, signal: Signal) -> bool {
    table_named(tables, signal.root_name()) matches Some(root) ==> {
        &&& scannable_root(root, signal)
        &&& attrs_ready(table_named(tables, signal.attrs_name()))
        &&& attrs_ready(table_named(tables, "resource_attrs"@))
        &&& attrs_ready(table_named(tables, "scope_attrs"@))
        &&& forall|i: int|
            0 <= i < child_names(signal).len() ==> rows_ready(
                table_named(tables, (#[trigger] child_names(signal)[i]).1),
            ) && attrs_ready(table_named(tables, child_names(signal)[i].2))
    }
}

fn check_level(tables: &[Named], name: &str) -> (r: bool)
    ensures
        r == attrs_ready(table_named(tables@, name@)),
{
    match find_table(tables, name) {
        Some(a) => check_attrs(a),
        None => true,
    }
}

fn check_rows(tables: &[Named], name: &str) -> (r: bool)
    ensures
        r == rows_ready(table_named(tables@, name@)),
{
    match find_table(tables, name) {
        Some(t) => t.check() && t.rows < u32::MAX as usize,
        None => true,
    }
}

fn check_root(root: &Table, signal: Signal) -> (r: bool)
    ensures
        r == scannable_root(*root, signal),
{
    if !root.check() || root.rows >= u32::MAX as usize {
        return false;
    }
    if root.column_by_name(signal.time_col()).is_some() && time_column(
        root,
        signal.time_col(),
    ).is_none() {
        return false;
    }
    if root.column_by_name("resource_id").is_some() && u16_column(root, "resource_id").is_none() {
        return false;
    }
    if root.column_by_name("scope_id").is_some() && u16_column(root, "scope_id").is_none() {
        return false;
    }
    let mut i: usize = 0;
    while i < root.fields.len()
        invariant
            i <= root.fields@.len(),
            forall|k: int|
                0 <= k < i ==> !((#[trigger] root.fields@[k]).column.data is Dict32),
        decreases root.fields@.len() - i,
    {
        if let Data::Dict32(_, _) = &root.fields[i].column.data {
            assert(root.fields@[i as int].column.data is Dict32);
            return false;
        }
        i = i + 1;
    }
    true
}

/// Decide [`block_ready`].
pub fn check_block(tables: &[Named], signal: Signal) -> (r: bool)
    ensures
        r == block_ready(tables@, signal),
{
    let root = match find_table(tables, signal.root()) {
        Some(t) => t,
        None => {
            return true;
        },
    };
    if !check_root(root, signal) || !check_level(tables, signal.attrs()) || !check_level(
        tables,
        "resource_attrs",
    ) || !check_level(tables, "scope_attrs") {
        return false;
    }
    let names = child_tables(signal);
    let mut i: usize = 0;
    while i < names.len()
        invariant
            i <= names@.len(),
            table_named(tables@, signal.root_name()) == Some(*root),
            names@.len() == child_names(signal).len(),
            forall|k: int|
                0 <= k < names@.len() ==> ((#[trigger] names@[k]).0@, names@[k].1@, names@[k].2@)
                    == child_names(signal)[k],
            forall|k: int|
                0 <= k < i ==> rows_ready(
                    table_named(tables@, (#[trigger] child_names(signal)[k]).1),
                ) && attrs_ready(table_named(tables@, child_names(signal)[k].2)),
        decreases names@.len() - i,
    {
        let ghost n = child_names(signal)[i as int];
        let triple = &names[i];
        assert(names@[i as int].1@ == n.1);
        let rows = check_rows(tables, triple.1);
        let level = check_level(tables, triple.2);
        if !rows || !level {
            assert(table_named(tables@, signal.root_name()) == Some(*root));
            assert(!(rows_ready(table_named(tables@, child_names(signal)[i as int].1))
                && attrs_ready(table_named(tables@, child_names(signal)[i as int].2))));
            return false;
        }
        i = i + 1;
    }
    true
}

/// What one attribute level of an open block is: the table of that name.
pub open spec fn level_is(a: Option<Attrs>, t: Option<Table>) -> bool {
    match t {
        None => a is None,
        Some(x) => a matches Some(y) && *y.rows == x && y.wf(),
    }
}

/// What one kind of children of an open block is: the two tables of that name.
pub open spec fn child_is(c: Child, tables: Seq<Named>, n: (Seq<char>, Seq<char>, Seq<char>)) -> bool {
    &&& c.wf()
    &&& c.label@ == n.0
    &&& Some(*c.rows) == table_named(tables, n.1)
    &&& level_is(c.attrs, table_named(tables, n.2))
}

/// What the children of an open block are: one entry for each of the names
/// whose row table is there, in order.
pub open spec fn children_are(
    cs: Seq<Child>,
    tables: Seq<Named>,
    names: Seq<(Seq<char>, Seq<char>, Seq<char>)>,
) -> bool
    decreases names.len(),
{
    if names.len() == 0 {
        cs.len() == 0
    } else if table_named(tables, names.last().1) is None {
        children_are(cs, tables, names.drop_last())
    } else {
        &&& cs.len() > 0
        &&& child_is(cs.last(), tables, names.last())
        &&& children_are(cs.drop_last(), tables, names.drop_last())
    }
}

fn open_level<'a>(tables: &'a [Named], name: &str) -> (r: Option<Attrs<'a>>)
    requires
        attrs_ready(table_named(tables@, name@)),
    ensures
        level_is(r, table_named(tables@, name@)),
{
    match find_table(tables, name) {
        Some(a) => Some(Attrs::new(a)),
        None => None,
    }
}

fn open_children<'a>(tables: &'a [Named], signal: Signal) -> (r: Vec<Child<'a>>)
    requires
        forall|i: int|
            0 <= i < child_names(signal).len() ==> rows_ready(
                table_named(tables@, (#[trigger] child_names(signal)[i]).1),
            ) && attrs_ready(table_named(tables@, child_names(signal)[i].2)),
    ensures
        children_are(r@, tables@, child_names(signal)),
        forall|i: int| 0 <= i < r@.len() ==> (#[trigger] r@[i]).wf(),
{
    let names = child_tables(signal);
    let mut out: Vec<Child<'a>> = Vec::new();
    let mut i: usize = 0;
    let ghost all = child_names(signal);
    while i < names.len()
        invariant
            i <= names@.len(),
            all == child_names(signal),
            names@.len() == all.len(),
            forall|k: int|
                0 <= k < names@.len() ==> ((#[trigger] names@[k]).0@, names@[k].1@, names@[k].2@)
                    == all[k],
            forall|k: int|
                0 <= k < all.len() ==> rows_ready(table_named(tables@, (#[trigger] all[k]).1))
                    && attrs_ready(table_named(tables@, all[k].2)),
            children_are(out@, tables@, all.take(i as int)),
            forall|k: int| 0 <= k < out@.len() ==> (#[trigger] out@[k]).wf(),
        decreases names@.len() - i,
    {
        let ghost was = out@;
        let ghost n = all[i as int];
        let triple = &names[i];
        assert(names@[i as int].1@ == n.1);
        assert(all.take(i + 1).drop_last() =~= all.take(i as int));
        assert(all.take(i + 1).last() == n);
        if let Some(rows) = find_table(tables, triple.1) {
            out.push(
                Child {
                    label: triple.0,
                    by_parent: index_by_parent(rows),
                    parent_of_id: index_parent_of_id(rows),
                    rows,
                    attrs: open_level(tables, triple.2),
                },
            );
            assert(out@.drop_last() =~= was);
        }
        i = i + 1;
    }
    assert(all.take(i as int) =~= all);
    out
}

impl<'a> Block<'a> {
    /// What a block opened from these tables is.
    pub open spec fn is_of(&self, tables: Seq<Named>, signal: Signal) -> bool {
        &&& self.wf()
        &&& self.signal == signal
        &&& Some(*self.root) == table_named(tables, signal.root_name())
        &&& level_is(self.attrs, table_named(tables, signal.attrs_name()))
        &&& level_is(self.resource_attrs, table_named(tables, "resource_attrs"@))
        &&& level_is(self.scope_attrs, table_named(tables, "scope_attrs"@))
        &&& children_are(self.children@, tables, child_names(signal))
    }

    /// Join the tables of a block. No root table means that the block is gone:
    /// racing the deletion of an expired block is normal, not a failure. A
    /// table of children that is not there is absence, not damage.
    pub fn open(tables: &'a [Named], signal: Signal) -> (r: Option<Block<'a>>)
        requires
            block_ready(tables@, signal),
        ensures
            r is Some <==> table_named(tables@, signal.root_name()) is Some,
            r matches Some(b) ==> b.is_of(tables@, signal),
    {
        let root = match find_table(tables, signal.root()) {
            Some(t) => t,
            None => {
                return None;
            },
        };
        Some(
            Block {
                signal,
                root,
                attrs: open_level(tables, signal.attrs()),
                resource_attrs: open_level(tables, "resource_attrs"),
                scope_attrs: open_level(tables, "scope_attrs"),
                children: open_children(tables, signal),
            },
        )
    }
}

} // verus!
