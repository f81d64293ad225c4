//! One block, opened and scanned: which of its rows a query selects.

use crate::attrfilter::{attrs_shaped, parents_carrying, parents_of};
use crate::filter::{cell_satisfies, comparable};
use crate::float::Floats;
use crate::order::same_text;
use crate::query::{Op, Search, Signal, Target, Term, Value};
use crate::table::{lemma_named_is_wf, Column, Data, Table};
use vstd::prelude::*;

verus! {

/// A table of a block and the name its file has.
pub struct Named {
    pub name: String,
    pub table: Table,
}

/// The first table of a name.
pub open spec fn table_named(tables: Seq<Named>, name: Seq<char>) -> Option<Table>
    decreases tables.len(),
{
    if tables.len() == 0 {
        None
    } else if tables[0].name@ == name {
        Some(tables[0].table)
    } else {
        table_named(tables.skip(1), name)
    }
}

/// The first table of a name.
pub fn find_table<'a>(tables: &'a [Named], name: &str) -> (r: Option<&'a Table>)
    ensures
        r is Some <==> table_named(tables@, name@) is Some,
        r matches Some(t) ==> table_named(tables@, name@) == Some(*t),
{
    let mut i: usize = 0;
    assert(tables@.skip(0) =~= tables@);
    while i < tables.len()
        invariant
            i <= tables@.len(),
            table_named(tables@, name@) == table_named(tables@.skip(i as int), name@),
        decreases tables@.len() - i,
    {
        assert(tables@.skip(i as int)[0] == tables@[i as int]);
        assert(tables@.skip(i as int).skip(1) =~= tables@.skip(i + 1));
        if same_text(tables[i].name.as_str(), name) {
            return Some(&tables[i].table);
        }
        i = i + 1;
    }
    None
}

// ---------------------------------------------------------------------------
// Numbers read out of a column.

/// The values of a column of 32-bit numbers, if the table has one of the name.
pub open spec fn u32s_named(t: Table, name: Seq<char>) -> Option<Seq<u32>> {
    match t.named(name) {
        Some(c) => match c.data {
            Data::U32(v) => Some(v@),
            _ => None,
        },
        None => None,
    }
}

/// The values of a column of 16-bit numbers, if the table has one of the name.
pub open spec fn u16s_named(t: Table, name: Seq<char>) -> Option<Seq<u16>> {
    match t.named(name) {
        Some(c) => match c.data {
            Data::U16(v) => Some(v@),
            _ => None,
        },
        None => None,
    }
}

/// The values of a column of times, if the table has one of the name.
pub open spec fn times_named(t: Table, name: Seq<char>) -> Option<Seq<i64>> {
    match t.named(name) {
        Some(c) => match c.data {
            Data::Time(v) => Some(v@),
            _ => None,
        },
        None => None,
    }
}

/// The values of a column of 64-bit numbers, if the table has one of the name.
pub open spec fn u64s_named(t: Table, name: Seq<char>) -> Option<Seq<u64>> {
    match t.named(name) {
        Some(c) => match c.data {
            Data::U64(v) => Some(v@),
            _ => None,
        },
        None => None,
    }
}

/// The values of a column of bytes, if the table has one of the name.
pub open spec fn u8s_named(t: Table, name: Seq<char>) -> Option<Seq<u8>> {
    match t.named(name) {
        Some(c) => match c.data {
            Data::U8(v) => Some(v@),
            _ => None,
        },
        None => None,
    }
}

/// The column of a name, if it holds byte strings of one width.
pub open spec fn fixed_named(t: Table, name: Seq<char>) -> Option<Column> {
    match t.named(name) {
        Some(c) => if c.data is Fixed {
            Some(c)
        } else {
            None
        },
        None => None,
    }
}

/// The byte strings of a column, each of the column's width.
pub open spec fn fixed_values(c: Column) -> Seq<Vec<u8>> {
    match c.data {
        Data::Fixed(v) => v@,
        _ => Seq::empty(),
    }
}

/// The table either lacks the column or has it as 16-bit numbers.
pub open spec fn u16s_if_named(t: Table, name: Seq<char>) -> bool {
    t.named(name) is Some ==> u16s_named(t, name) is Some
}

/// The table either lacks the column or has it as times.
pub open spec fn times_if_named(t: Table, name: Seq<char>) -> bool {
    t.named(name) is Some ==> times_named(t, name) is Some
}

/// The table either lacks the column or has it as 64-bit numbers.
pub open spec fn u64s_if_named(t: Table, name: Seq<char>) -> bool {
    t.named(name) is Some ==> u64s_named(t, name) is Some
}

/// The table either lacks the column or has it as bytes.
pub open spec fn u8s_if_named(t: Table, name: Seq<char>) -> bool {
    t.named(name) is Some ==> u8s_named(t, name) is Some
}

/// The column of a name, where it holds 32-bit numbers.
pub fn u32_column<'a>(t: &'a Table, name: &str) -> (r: Option<&'a Vec<u32>>)
    ensures
        r is Some <==> u32s_named(*t, name@) is Some,
        r matches Some(v) ==> u32s_named(*t, name@) == Some(v@),
        t.wf() ==> (r matches Some(v) ==> v@.len() == t.rows),
{
    match t.column_by_name(name) {
        Some(c) => match &c.data {
            Data::U32(v) => Some(v),
            _ => None,
        },
        None => None,
    }
}

/// The column of a name, where it holds 16-bit numbers.
pub fn u16_column<'a>(t: &'a Table, name: &str) -> (r: Option<&'a Vec<u16>>)
    ensures
        r is Some <==> u16s_named(*t, name@) is Some,
        r matches Some(v) ==> u16s_named(*t, name@) == Some(v@),
        t.wf() ==> (r matches Some(v) ==> v@.len() == t.rows),
{
    match t.column_by_name(name) {
        Some(c) => match &c.data {
            Data::U16(v) => Some(v),
            _ => None,
        },
        None => None,
    }
}

/// The column of a name, where it holds times.
pub fn time_column<'a>(t: &'a Table, name: &str) -> (r: Option<&'a Vec<i64>>)
    ensures
        r is Some <==> times_named(*t, name@) is Some,
        r matches Some(v) ==> times_named(*t, name@) == Some(v@),
        t.wf() ==> (r matches Some(v) ==> v@.len() == t.rows),
{
    match t.column_by_name(name) {
        Some(c) => match &c.data {
            Data::Time(v) => Some(v),
            _ => None,
        },
        None => None,
    }
}

/// The column of a name, where it holds 64-bit numbers.
pub fn u64_column<'a>(t: &'a Table, name: &str) -> (r: Option<&'a Vec<u64>>)
    ensures
        r is Some <==> u64s_named(*t, name@) is Some,
        r matches Some(v) ==> u64s_named(*t, name@) == Some(v@),
        t.wf() ==> (r matches Some(v) ==> v@.len() == t.rows),
{
    match t.column_by_name(name) {
        Some(c) => match &c.data {
            Data::U64(v) => Some(v),
            _ => None,
        },
        None => None,
    }
}

/// The column of a name, where it holds bytes.
pub fn u8_column<'a>(t: &'a Table, name: &str) -> (r: Option<&'a Vec<u8>>)
    ensures
        r is Some <==> u8s_named(*t, name@) is Some,
        r matches Some(v) ==> u8s_named(*t, name@) == Some(v@),
        t.wf() ==> (r matches Some(v) ==> v@.len() == t.rows),
{
    match t.column_by_name(name) {
        Some(c) => match &c.data {
            Data::U8(v) => Some(v),
            _ => None,
        },
        None => None,
    }
}

/// The column of a name, where it holds byte strings of one width.
pub fn fixed_column<'a>(t: &'a Table, name: &str) -> (r: Option<(&'a Column, &'a Vec<Vec<u8>>)>)
    ensures
        r is Some <==> fixed_named(*t, name@) is Some,
        r matches Some((c, v)) ==> fixed_named(*t, name@) == Some(*c) && v@ == fixed_values(*c),
        t.wf() ==> (r matches Some((c, v)) ==> c.wf() && v@.len() == t.rows && c.spec_len() == t.rows),
{
    proof {
        if t.wf() {
            lemma_named_is_wf(*t, name@);
        }
    }
    match t.column_by_name(name) {
        Some(c) => match &c.data {
            Data::Fixed(v) => Some((c, v)),
            _ => None,
        },
        None => None,
    }
}

// ---------------------------------------------------------------------------
// Child tables.

/// The parent that the last of the first `n` rows numbered `id` names.
pub open spec fn owner_upto(ids: Seq<u32>, parents: Seq<u32>, n: nat, id: u32) -> Option<u32>
    decreases n,
{
    if n == 0 {
        None
    } else if ids[n - 1] == id {
        Some(parents[n - 1])
    } else {
        owner_upto(ids, parents, (n - 1) as nat, id)
    }
}

/// The root row that the child numbered `id` hangs off.
pub open spec fn owner_of(rows: Table, id: u32) -> Option<u32> {
    match (u32s_named(rows, "id"@), u32s_named(rows, "parent_id"@)) {
        (Some(ids), Some(parents)) => owner_upto(ids, parents, rows.rows as nat, id),
        _ => None,
    }
}

/// The rows among the first `n` whose parent is `p`, in order.
pub open spec fn children_upto(parents: Seq<u32>, n: nat, p: u32) -> Seq<u32>
    decreases n,
{
    if n == 0 {
        Seq::empty()
    } else if parents[n - 1] == p {
        children_upto(parents, (n - 1) as nat, p).push((n - 1) as u32)
    } else {
        children_upto(parents, (n - 1) as nat, p)
    }
}

/// The child rows that hang off root row `p`, in order.
pub open spec fn children_of(rows: Table, p: u32) -> Seq<u32> {
    match u32s_named(rows, "parent_id"@) {
        Some(parents) => children_upto(parents, rows.rows as nat, p),
        None => Seq::empty(),
    }
}

fn max_of(v: &Vec<u32>) -> (m: u32)
    ensures
        forall|i: int| 0 <= i < v@.len() ==> #[trigger] v@[i] <= m,
        v@.len() == 0 ==> m == 0,
        v@.len() > 0 ==> v@.contains(m),
{
    if v.len() == 0 {
        return 0;
    }
    let mut m: u32 = v[0];
    let mut i: usize = 1;
    assert(v@.contains(v@[0]));
    while i < v.len()
        invariant
            1 <= i <= v@.len(),
            forall|k: int| 0 <= k < i ==> #[trigger] v@[k] <= m,
            v@.contains(m),
        decreases v@.len() - i,
    {
        if v[i] > m {
            m = v[i];
            assert(v@.contains(v@[i as int]));
        }
        i = i + 1;
    }
    m
}

/// The `parent_id` of each child row, indexed by that row's own `id`.
///
/// A table missing either column indexes as empty, and every lookup then
/// misses.
pub fn index_parent_of_id(b: &Table) -> (r: Vec<u32>)
    requires
        b.wf(),
    ensures
        forall|id: u32|
            #![trigger owner_of(*b, id)]
            if id < r@.len() {
                r@[id as int] == owner_of(*b, id).unwrap_or(u32::MAX)
            } else {
                owner_of(*b, id) is None
            },
{
    let (ids, parents) = match (u32_column(b, "id"), u32_column(b, "parent_id")) {
        (Some(i), Some(p)) => (i, p),
        _ => {
            return Vec::new();
        },
    };
    let top: u32 = max_of(ids);
    let mut out: Vec<u32> = Vec::new();
    let mut k: u64 = 0;
    while k <= top as u64
        invariant
            k <= top + 1,
            out@.len() == k,
            forall|i: int| 0 <= i < out@.len() ==> out@[i] == u32::MAX,
        decreases top + 1 - k,
    {
        out.push(u32::MAX);
        k = k + 1;
    }
    let mut n: usize = 0;
    while n < b.rows
        invariant
            n <= b.rows,
            ids@.len() == b.rows,
            parents@.len() == b.rows,
            out@.len() == top + 1,
            forall|i: int| 0 <= i < ids@.len() ==> #[trigger] ids@[i] <= top,
            forall|id: u32|
                #![trigger owner_upto(ids@, parents@, n as nat, id)]
                if id <= top {
                    out@[id as int] == owner_upto(ids@, parents@, n as nat, id).unwrap_or(u32::MAX)
                } else {
                    owner_upto(ids@, parents@, n as nat, id) is None
                },
        decreases b.rows - n,
    {
        let ghost was = out@;
        out.set(ids[n] as usize, parents[n]);
        proof {
            assert forall|id: u32|
                #![trigger owner_upto(ids@, parents@, (n + 1) as nat, id)]
                if id <= top {
                    out@[id as int] == owner_upto(ids@, parents@, (n + 1) as nat, id).unwrap_or(
                        u32::MAX,
                    )
                } else {
                    owner_upto(ids@, parents@, (n + 1) as nat, id) is None
                } by {
                let before = owner_upto(ids@, parents@, n as nat, id);
                assert(ids@[n as int] <= top);
            }
        }
        n = n + 1;
    }
    assert forall|id: u32|
        #![trigger owner_of(*b, id)]
        if id < out@.len() {
            out@[id as int] == owner_of(*b, id).unwrap_or(u32::MAX)
        } else {
            owner_of(*b, id) is None
        } by {
        assert(owner_of(*b, id) == owner_upto(ids@, parents@, b.rows as nat, id));
    }
    out
}

/// Child rows grouped by the root row they hang off, indexed by it.
pub fn index_by_parent(b: &Table) -> (r: Vec<Vec<u32>>)
    requires
        b.wf(),
        b.rows < u32::MAX,
    ensures
        forall|p: u32|
            #![trigger children_of(*b, p)]
            if p < r@.len() {
                r@[p as int]@ == children_of(*b, p)
            } else {
                children_of(*b, p).len() == 0
            },
{
    let parents = match u32_column(b, "parent_id") {
        Some(p) => p,
        None => {
            return Vec::new();
        },
    };
    if b.rows == 0 {
        return Vec::new();
    }
    let top: u32 = max_of(parents);
    let mut out: Vec<Vec<u32>> = Vec::new();
    let mut k: u64 = 0;
    while k <= top as u64
        invariant
            k <= top + 1,
            out@.len() == k,
            forall|i: int| 0 <= i < out@.len() ==> (#[trigger] out@[i])@.len() == 0,
        decreases top + 1 - k,
    {
        out.push(Vec::new());
        k = k + 1;
    }
    let mut n: usize = 0;
    assert forall|p: u32|
        #![trigger children_upto(parents@, 0, p)]
        if p <= top {
            out@[p as int]@ == children_upto(parents@, 0, p)
        } else {
            children_upto(parents@, 0, p).len() == 0
        } by {
        if p <= top {
            assert(out@[p as int]@ =~= Seq::<u32>::empty());
        }
    }
    while n < b.rows
        invariant
            n <= b.rows < u32::MAX,
            parents@.len() == b.rows,
            out@.len() == top + 1,
            forall|i: int| 0 <= i < parents@.len() ==> #[trigger] parents@[i] <= top,
            forall|p: u32|
                #![trigger children_upto(parents@, n as nat, p)]
                if p <= top {
                    out@[p as int]@ == children_upto(parents@, n as nat, p)
                } else {
                    children_upto(parents@, n as nat, p).len() == 0
                },
        decreases b.rows - n,
    {
        let at: usize = parents[n] as usize;
        let ghost was = out@;
        let ghost m = (n + 1) as nat;
        out[at].push(n as u32);
        proof {
            assert(parents@[n as int] <= top);
            assert(out@ =~= was.update(at as int, out@[at as int]));
            assert forall|p: u32|
                #![trigger children_upto(parents@, m, p)]
                if p <= top {
                    out@[p as int]@ == children_upto(parents@, m, p)
                } else {
                    children_upto(parents@, m, p).len() == 0
                } by {
                let before = children_upto(parents@, n as nat, p);
                assert(m - 1 == n);
                if p == at {
                    assert(out@[p as int]@ == was[p as int]@.push(n as u32));
                }
            }
        }
        n = n + 1;
        assert(n as nat == m);
    }
    assert forall|p: u32|
        #![trigger children_of(*b, p)]
        if p < out@.len() {
            out@[p as int]@ == children_of(*b, p)
        } else {
            children_of(*b, p).len() == 0
        } by {
        assert(children_of(*b, p) == children_upto(parents@, b.rows as nat, p));
    }
    out
}

// ---------------------------------------------------------------------------
// Attribute tables.

/// Whether a run of numbers never descends.
pub open spec fn ascending(v: Seq<u32>) -> bool {
    forall|i: int, j: int| 0 <= i <= j < v.len() ==> v[i] <= v[j]
}

/// An attribute table, plus the one fact about it that makes rendering a row
/// cheap: whether `parent_id` ascends.
///
/// Checked when the block is opened rather than assumed, because a binary
/// search over unsorted parents does not fail: it silently drops attributes.
pub struct Attrs<'a> {
    pub rows: &'a Table,
    pub ordered: bool,
}

/// The first position whose number is at least `p`, or above it if `above`.
fn split_point(v: &Vec<u32>, p: u32, above: bool) -> (r: usize)
    requires
        ascending(v@),
    ensures
        r <= v@.len(),
        forall|i: int|
            0 <= i < v@.len() ==> (i < r <==> if above {
                #[trigger] v@[i] <= p
            } else {
                v@[i] < p
            }),
{
    let mut lo: usize = 0;
    let mut hi: usize = v.len();
    while lo < hi
        invariant
            lo <= hi <= v@.len(),
            ascending(v@),
            forall|i: int|
                0 <= i < lo ==> if above {
                    #[trigger] v@[i] <= p
                } else {
                    v@[i] < p
                },
            forall|i: int|
                hi <= i < v@.len() ==> !(if above {
                    #[trigger] v@[i] <= p
                } else {
                    v@[i] < p
                }),
        decreases hi - lo,
    {
        let mid: usize = lo + (hi - lo) / 2;
        let below = if above {
            v[mid] <= p
        } else {
            v[mid] < p
        };
        if below {
            lo = mid + 1;
        } else {
            hi = mid;
        }
    }
    lo
}

impl<'a> Attrs<'a> {
    pub open spec fn wf(&self) -> bool {
        &&& attrs_shaped(*self.rows)
        &&& self.ordered <==> ascending(parents_of(*self.rows))
    }

    pub fn new(rows: &'a Table) -> (r: Attrs<'a>)
        requires
            attrs_shaped(*rows),
        ensures
            r.wf(),
            r.rows == rows,
    {
        let mut ordered = true;
        if let Data::U32(parents) = &rows.fields[0].column.data {
            let mut i: usize = 1;
            while i < parents.len()
                invariant
                    1 <= i,
                    parents@ == parents_of(*rows),
                    ordered <==> forall|j: int, k: int|
                        0 <= j <= k < i && k < parents@.len() ==> parents@[j] <= parents@[k],
                decreases parents@.len() - i,
            {
                if parents[i - 1] > parents[i] {
                    ordered = false;
                }
                i = i + 1;
            }
        }
        Attrs { rows, ordered }
    }

    /// The rows belonging to `parent`, as a range the caller still filters:
    /// exact when the table is ordered, the whole table when it is not.
    pub fn run(&self, parent: u32) -> (r: (usize, usize))
        requires
            self.wf(),
        ensures
            r.0 <= r.1 <= self.rows.rows,
            forall|i: int|
                0 <= i < self.rows.rows && #[trigger] parents_of(*self.rows)[i] == parent ==> r.0 <= i
                    < r.1,
            self.ordered ==> forall|i: int|
                r.0 <= i < r.1 ==> #[trigger] parents_of(*self.rows)[i] == parent,
    {
        match &self.rows.fields[0].column.data {
            Data::U32(parents) => {
                if !self.ordered {
                    return (0, parents.len());
                }
                let lo = split_point(parents, parent, false);
                let hi = split_point(parents, parent, true);
                if lo < hi {
                    (lo, hi)
                } else {
                    (lo, lo)
                }
            },
            _ => (0, 0),
        }
    }
}

// ---------------------------------------------------------------------------
// A block.

/// A child table and the attribute table keyed by its `id`.
pub struct Child<'a> {
    /// What the array is called in the emitted row.
    pub label: &'static str,
    pub rows: &'a Table,
    pub attrs: Option<Attrs<'a>>,
    /// Child rows grouped by the root row they hang off, indexed by it.
    pub by_parent: Vec<Vec<u32>>,
    /// The root row each child `id` belongs to, indexed by the id.
    pub parent_of_id: Vec<u32>,
}

/// The tables of one block, opened and ready to scan.
pub struct Block<'a> {
    pub signal: Signal,
    pub root: &'a Table,
    /// Record-level attributes; `parent_id` is the root row's number.
    pub attrs: Option<Attrs<'a>>,
    pub resource_attrs: Option<Attrs<'a>>,
    pub scope_attrs: Option<Attrs<'a>>,
    /// Rows that hang off a root row rather than being one: a span's events and
    /// its links. Empty for logs.
    pub children: Vec<Child<'a>>,
}

impl<'a> Child<'a> {
    pub open spec fn wf(&self) -> bool {
        &&& self.rows.wf()
        &&& self.rows.rows < u32::MAX
        &&& self.attrs matches Some(a) ==> a.wf()
        &&& forall|p: u32|
            #![trigger children_of(*self.rows, p)]
            if p < self.by_parent@.len() {
                self.by_parent@[p as int]@ == children_of(*self.rows, p)
            } else {
                children_of(*self.rows, p).len() == 0
            }
        &&& forall|id: u32|
            #![trigger owner_of(*self.rows, id)]
            if id < self.parent_of_id@.len() {
                self.parent_of_id@[id as int] == owner_of(*self.rows, id).unwrap_or(u32::MAX)
            } else {
                owner_of(*self.rows, id) is None
            }
    }
}

/// Whether an attribute table has a row that belongs to `id` and carries the
/// term.
pub open spec fn level_carries(
    a: Option<Attrs>,
    id: u32,
    key: Seq<char>,
    op: Op,
    v: Value,
    floats: Floats,
) -> bool {
    a matches Some(t) && parents_carrying(*t.rows, t.rows.rows as nat, key, op, v, floats).contains(id)
}

/// A root table that can be scanned: well formed, its rows numbered within 32
/// bits, and the columns a scan reads by name of the kind they should be.
pub open spec fn scannable_root(root: Table, signal: Signal) -> bool {
    &&& root.wf()
    &&& root.rows < u32::MAX
    &&& times_if_named(root, signal.time_name())
    &&& u16s_if_named(root, "resource_id"@)
    &&& u16s_if_named(root, "scope_id"@)
    &&& forall|i: int| 0 <= i < root.fields@.len() ==> !((#[trigger] root.fields@[i]).column.data is Dict32)
}

impl<'a> Block<'a> {
    pub open spec fn wf(&self) -> bool {
        &&& scannable_root(*self.root, self.signal)
        &&& self.attrs matches Some(a) ==> a.wf()
        &&& self.resource_attrs matches Some(a) ==> a.wf()
        &&& self.scope_attrs matches Some(a) ==> a.wf()
        &&& forall|i: int| 0 <= i < self.children@.len() ==> (#[trigger] self.children@[i]).wf()
    }

    /// Whether one of the children of root row `i`, among the first `n` child
    /// tables, carries the term.
    pub open spec fn child_carries(
        &self,
        n: nat,
        i: int,
        key: Seq<char>,
        op: Op,
        v: Value,
        floats: Floats,
    ) -> bool {
        exists|c: int, id: u32|
            0 <= c < n && c < self.children@.len() && level_carries(
                self.children@[c].attrs,
                id,
                key,
                op,
                v,
                floats,
            ) && #[trigger] owner_of(*self.children@[c].rows, id) == Some(i as u32)
    }

    /// Whether an attribute table of entities carries the term for the entity
    /// that root row `i` names in column `fk`.
    pub open spec fn entity_carries(
        &self,
        a: Option<Attrs>,
        fk: Seq<char>,
        i: int,
        key: Seq<char>,
        op: Op,
        v: Value,
        floats: Floats,
    ) -> bool {
        u16s_named(*self.root, fk) matches Some(ids) && level_carries(
            a,
            ids[i] as u32,
            key,
            op,
            v,
            floats,
        )
    }

    /// Whether root row `i` carries `key op v` at any level it has: its own
    /// attributes, its resource's, its scope's, or those of its children.
    pub open spec fn row_carries(&self, i: int, key: Seq<char>, op: Op, v: Value, floats: Floats) -> bool {
        ||| level_carries(self.attrs, i as u32, key, op, v, floats)
        ||| self.entity_carries(self.resource_attrs, "resource_id"@, i, key, op, v, floats)
        ||| self.entity_carries(self.scope_attrs, "scope_id"@, i, key, op, v, floats)
        ||| self.child_carries(self.children@.len(), i, key, op, v, floats)
    }

    /// Whether root row `i` satisfies one term.
    pub open spec fn satisfies(&self, i: int, t: Term, floats: Floats) -> bool {
        match t.target {
            Target::Field(name) => self.root.named(name@) matches Some(c) && comparable(
                c,
                t.value,
                floats,
            ) && cell_satisfies(c, i, t.op, t.value, floats),
            Target::Attr(key) => self.row_carries(i, key@, t.op, t.value, floats),
        }
    }

    /// Whether root row `i` satisfies the first `n` terms.
    pub open spec fn satisfies_all(&self, i: int, terms: Seq<Term>, n: nat, floats: Floats) -> bool {
        forall|k: int| 0 <= k < n ==> self.satisfies(i, #[trigger] terms[k], floats)
    }

    /// The time of each root row, where the table has times.
    pub open spec fn times(&self) -> Option<Seq<i64>> {
        times_named(*self.root, self.signal.time_name())
    }

    /// Whether a query selects root row `i`. Where the window is known to cover
    /// the whole block the row's own time is not looked at.
    pub open spec fn selects(&self, i: int, q: Search, covered: bool, floats: Floats) -> bool {
        &&& self.times() matches Some(t) && (covered || q.from <= t[i] <= q.to)
        &&& self.satisfies_all(i, q.terms@, q.terms@.len(), floats)
    }
}

} // verus!
