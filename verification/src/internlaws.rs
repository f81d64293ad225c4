//! What a block says of the resources and scopes of what came in.

use crate::attrs::{appended, attrs_table_of, takes, AttrRow};
use crate::cells::{
    has_attr, lemma_attr_cells, lemma_columns, lemma_resource_names, resource_names, u16_at, u32_at,
    u64_at,
};
use crate::identity::identity_of;
use crate::interning::{
    resource_bytes, resource_dropped, resource_pairs, resources_table_of, scope_bytes, scope_pairs,
    with_resource, with_scope, Interned, Outcome, ResourceRow,
};
use crate::otlp::{InstrumentationScope, Pair, Resource, Val};
use crate::scan::{table_named, Named};
use crate::table::Table;
use vstd::prelude::*;

verus! {

// ---------------------------------------------------------------------------
// What only grows.

/// The second list begins with the first.
pub open spec fn begins<T>(a: Seq<T>, b: Seq<T>) -> bool {
    a.len() <= b.len() && forall|i: int| 0 <= i < a.len() ==> a[i] == #[trigger] b[i]
}

pub proof fn lemma_begins<T>(a: Seq<T>, b: Seq<T>, c: Seq<T>)
    requires
        begins(a, b),
        begins(b, c),
    ensures
        begins(a, c),
{
    assert forall|i: int| 0 <= i < a.len() implies a[i] == #[trigger] c[i] by {
        assert(b[i] == c[i]);
        assert(a[i] == b[i]);
    }
}

/// An attribute stands among the rows, under its parent. A value that is not
/// there is an empty one.
pub open spec fn stands(rows: Seq<AttrRow>, parent: int, kv: Pair, y: int) -> bool {
    &&& 0 <= y < rows.len()
    &&& rows[y].parent == parent
    &&& rows[y].key == kv.key
    &&& rows[y].value == (match kv.value {
        Some(v) => v,
        None => Val::Empty,
    })
}

/// An attribute stands somewhere among the rows.
pub open spec fn is_among(rows: Seq<AttrRow>, parent: int, kv: Pair) -> bool {
    exists|y: int| #[trigger] stands(rows, parent, kv, y)
}

/// Every one of these attributes stands among the rows, under the parent.
pub open spec fn all_stand(rows: Seq<AttrRow>, parent: int, ps: Seq<Pair>) -> bool {
    forall|a: int| 0 <= a < ps.len() ==> is_among(rows, parent, #[trigger] ps[a])
}

pub proof fn lemma_stand_on(a: Seq<AttrRow>, b: Seq<AttrRow>, parent: int, ps: Seq<Pair>)
    requires
        begins(a, b),
        all_stand(a, parent, ps),
    ensures
        all_stand(b, parent, ps),
{
    assert forall|k: int| 0 <= k < ps.len() implies is_among(b, parent, #[trigger] ps[k]) by {
        let y = choose|y: int| #[trigger] stands(a, parent, ps[k], y);
        assert(b[y] == a[y]);
        assert(stands(b, parent, ps[k], y));
    }
}

/// Appending keeps what is there, and where nothing is refused every attribute
/// stands.
pub proof fn lemma_appended(rows: Seq<AttrRow>, parent: u32, ps: Seq<Pair>)
    ensures
        begins(rows, appended(rows, parent, ps).0),
        appended(rows, parent, ps).1 ==> all_stand(appended(rows, parent, ps).0, parent as int, ps),
    decreases ps.len(),
{
    if ps.len() > 0 {
        let row = AttrRow {
            parent,
            key: ps[0].key,
            value: match ps[0].value {
                Some(v) => v,
                None => Val::Empty,
            },
        };
        let end = appended(rows, parent, ps);
        if takes(rows, row) {
            let more = rows.push(row);
            let rest = ps.skip(1);
            lemma_appended(more, parent, rest);
            assert(begins(rows, more));
            lemma_begins(rows, more, end.0);
            if end.1 {
                assert forall|a: int| 0 <= a < ps.len() implies is_among(
                    end.0,
                    parent as int,
                    #[trigger] ps[a],
                ) by {
                    if a == 0 {
                        assert(end.0[rows.len() as int] == more[rows.len() as int]);
                        assert(stands(end.0, parent as int, ps[0], rows.len() as int));
                    } else {
                        assert(rest[a - 1] == ps[a]);
                    }
                }
            }
        }
    }
}

/// What is interned only grows.
pub open spec fn rs_later(a: Interned, b: Interned) -> bool {
    &&& begins(a.resources, b.resources)
    &&& begins(a.scopes, b.scopes)
    &&& begins(a.rows, b.rows)
    &&& begins(a.resource_attrs, b.resource_attrs)
    &&& begins(a.scope_attrs, b.scope_attrs)
}

pub proof fn lemma_rs_later(a: Interned, b: Interned, c: Interned)
    requires
        rs_later(a, b),
        rs_later(b, c),
    ensures
        rs_later(a, c),
{
    lemma_begins(a.resources, b.resources, c.resources);
    lemma_begins(a.scopes, b.scopes, c.scopes);
    lemma_begins(a.rows, b.rows, c.rows);
    lemma_begins(a.resource_attrs, b.resource_attrs, c.resource_attrs);
    lemma_begins(a.scope_attrs, b.scope_attrs, c.scope_attrs);
}

// ---------------------------------------------------------------------------
// What a number stands for.

/// The row and the attributes under a number are those of a resource.
pub open spec fn row_is(rs: Interned, n: int, r: Option<Resource>) -> bool {
    &&& 0 <= n < rs.rows.len()
    &&& rs.rows[n].key == identity_of(resource_pairs(r))
    &&& rs.rows[n].dropped == resource_dropped(r)
    &&& all_stand(rs.resource_attrs, n, resource_pairs(r))
}

/// The number stands for a resource whose message is the same.
pub open spec fn is_number_of(rs: Interned, n: int, r: Option<Resource>) -> bool {
    exists|x: Option<Resource>| #[trigger] resource_bytes(x) == resource_bytes(r) && row_is(rs, n, x)
}

/// The number stands for a scope whose message is the same.
pub open spec fn is_scope_number_of(rs: Interned, n: int, s: Option<InstrumentationScope>) -> bool {
    exists|x: Option<InstrumentationScope>| #[trigger]
        scope_bytes(x) == scope_bytes(s) && all_stand(rs.scope_attrs, n, scope_pairs(x))
}

/// The number stands for a resource that was interned under it.
pub open spec fn resource_known(rs: Interned, n: int) -> bool {
    exists|x: Option<Resource>| #[trigger] resource_bytes(x) == rs.resources[n] && row_is(rs, n, x)
}

/// The number stands for a scope that was interned under it.
pub open spec fn scope_known(rs: Interned, n: int) -> bool {
    exists|x: Option<InstrumentationScope>| #[trigger]
        scope_bytes(x) == rs.scopes[n] && all_stand(rs.scope_attrs, n, scope_pairs(x))
}

/// What has been interned stands for what it was interned from.
pub open spec fn is_faithful(rs: Interned) -> bool {
    &&& rs.rows.len() == rs.resources.len()
    &&& rs.resources.len() <= 65536
    &&& rs.scopes.len() <= 65536
    &&& forall|n: int| 0 <= n < rs.resources.len() ==> #[trigger] resource_known(rs, n)
    &&& forall|n: int| 0 <= n < rs.scopes.len() ==> #[trigger] scope_known(rs, n)
}

pub proof fn lemma_number_on(a: Interned, b: Interned, n: int, r: Option<Resource>)
    requires
        rs_later(a, b),
        is_number_of(a, n, r),
    ensures
        is_number_of(b, n, r),
{
    let x = choose|x: Option<Resource>| #[trigger]
        resource_bytes(x) == resource_bytes(r) && row_is(a, n, x);
    lemma_row_on(a, b, n, x);
    assert(resource_bytes(x) == resource_bytes(r) && row_is(b, n, x));
}

proof fn lemma_row_on(a: Interned, b: Interned, n: int, x: Option<Resource>)
    requires
        rs_later(a, b),
        row_is(a, n, x),
    ensures
        row_is(b, n, x),
{
    assert(b.rows[n] == a.rows[n]);
    lemma_stand_on(a.resource_attrs, b.resource_attrs, n, resource_pairs(x));
}

pub proof fn lemma_scope_number_on(a: Interned, b: Interned, n: int, s: Option<InstrumentationScope>)
    requires
        rs_later(a, b),
        is_scope_number_of(a, n, s),
    ensures
        is_scope_number_of(b, n, s),
{
    let x = choose|x: Option<InstrumentationScope>| #[trigger]
        scope_bytes(x) == scope_bytes(s) && all_stand(a.scope_attrs, n, scope_pairs(x));
    lemma_stand_on(a.scope_attrs, b.scope_attrs, n, scope_pairs(x));
    assert(scope_bytes(x) == scope_bytes(s) && all_stand(b.scope_attrs, n, scope_pairs(x)));
}

/// Interning a resource keeps what is there, and the number it gives stands for
/// it.
pub proof fn lemma_with_resource(rs: Interned, r: Option<Resource>)
    ensures
        rs_later(rs, with_resource(rs, r).0),
        is_faithful(rs) ==> (with_resource(rs, r).1 matches Outcome::Id(n) ==> is_faithful(
            with_resource(rs, r).0,
        ) && is_number_of(with_resource(rs, r).0, n as int, r)),
{
    let b = resource_bytes(r);
    let (now, o) = with_resource(rs, r);
    if rs.resources.contains(b) {
        let n = rs.resources.index_of(b);
        if is_faithful(rs) {
            assert(rs.resources[n] == b);
            assert(resource_known(rs, n));
            assert(n as u16 == n);
        }
    } else if rs.resources.len() < crate::schema::DICT_CAP {
        let id = rs.resources.len() as u16;
        lemma_appended(rs.resource_attrs, id as u32, resource_pairs(r));
        assert(rs_later(rs, now));
        if is_faithful(rs) && o is Id {
            let n = rs.resources.len() as int;
            assert(id == n);
            assert(row_is(now, n, r));
            assert(resource_bytes(r) == resource_bytes(r));
            assert forall|k: int| 0 <= k < now.resources.len() implies #[trigger] resource_known(
                now,
                k,
            ) by {
                if k < n {
                    assert(rs.resources[k] == now.resources[k]);
                    assert(resource_known(rs, k));
                    let x = choose|x: Option<Resource>| #[trigger]
                        resource_bytes(x) == rs.resources[k] && row_is(rs, k, x);
                    lemma_row_on(rs, now, k, x);
                    assert(resource_bytes(x) == now.resources[k] && row_is(now, k, x));
                } else {
                    assert(resource_bytes(r) == now.resources[k] && row_is(now, k, r));
                }
            }
            assert forall|k: int| 0 <= k < now.scopes.len() implies #[trigger] scope_known(
                now,
                k,
            ) by {
                assert(rs.scopes[k] == now.scopes[k]);
                assert(scope_known(rs, k));
            }
        }
    }
}

/// Interning a scope keeps what is there, and the number it gives stands for it.
pub proof fn lemma_with_scope(rs: Interned, s: Option<InstrumentationScope>)
    ensures
        rs_later(rs, with_scope(rs, s).0),
        is_faithful(rs) ==> (with_scope(rs, s).1 matches Outcome::Id(n) ==> is_faithful(
            with_scope(rs, s).0,
        ) && is_scope_number_of(with_scope(rs, s).0, n as int, s)),
{
    let b = scope_bytes(s);
    let (now, o) = with_scope(rs, s);
    if rs.scopes.contains(b) {
        let n = rs.scopes.index_of(b);
        if is_faithful(rs) {
            assert(rs.scopes[n] == b);
            assert(scope_known(rs, n));
            assert(n as u16 == n);
        }
    } else if rs.scopes.len() < crate::schema::DICT_CAP {
        let id = rs.scopes.len() as u16;
        lemma_appended(rs.scope_attrs, id as u32, scope_pairs(s));
        assert(rs_later(rs, now));
        if is_faithful(rs) && o is Id {
            let n = rs.scopes.len() as int;
            assert(id == n);
            assert(all_stand(now.scope_attrs, n, scope_pairs(s)));
            assert(scope_bytes(s) == scope_bytes(s));
            assert forall|k: int| 0 <= k < now.resources.len() implies #[trigger] resource_known(
                now,
                k,
            ) by {
                assert(rs.resources[k] == now.resources[k]);
                assert(resource_known(rs, k));
                let x = choose|x: Option<Resource>| #[trigger]
                    resource_bytes(x) == rs.resources[k] && row_is(rs, k, x);
                lemma_row_on(rs, now, k, x);
                assert(resource_bytes(x) == now.resources[k] && row_is(now, k, x));
            }
            assert forall|k: int| 0 <= k < now.scopes.len() implies #[trigger] scope_known(
                now,
                k,
            ) by {
                if k < n {
                    assert(rs.scopes[k] == now.scopes[k]);
                    assert(scope_known(rs, k));
                    let x = choose|x: Option<InstrumentationScope>| #[trigger]
                        scope_bytes(x) == rs.scopes[k] && all_stand(
                            rs.scope_attrs,
                            k,
                            scope_pairs(x),
                        );
                    lemma_stand_on(rs.scope_attrs, now.scope_attrs, k, scope_pairs(x));
                    assert(scope_bytes(x) == now.scopes[k] && all_stand(
                        now.scope_attrs,
                        k,
                        scope_pairs(x),
                    ));
                } else {
                    assert(scope_bytes(s) == now.scopes[k] && all_stand(
                        now.scope_attrs,
                        k,
                        scope_pairs(s),
                    ));
                }
            }
        }
    }
}

// ---------------------------------------------------------------------------
// In the tables.

/// A table has every one of these attributes under the parent.
pub open spec fn has_attrs(tables: Seq<Named>, name: Seq<char>, parent: int, ps: Seq<Pair>) -> bool {
    &&& table_named(tables, name) is Some
    &&& forall|a: int| 0 <= a < ps.len() ==> has_attr(tables, name, parent, #[trigger] ps[a])
}

/// The tables of a block describe this resource under this number: its identity,
/// how many attributes it lost, and each attribute it has.
pub open spec fn describes(tables: Seq<Named>, n: int, r: Option<Resource>) -> bool {
    &&& table_named(tables, "resources"@) matches Some(t)
    &&& 0 <= n < t.rows
    &&& u16_at(t, "id"@, n, n)
    &&& u64_at(t, "key"@, n, identity_of(resource_pairs(r)) as int)
    &&& u32_at(t, "dropped_attributes_count"@, n, resource_dropped(r) as int)
    &&& has_attrs(tables, "resource_attrs"@, n, resource_pairs(r))
}

/// The tables of a block describe, under this number, a resource whose message
/// is the same as this one's.
pub open spec fn tells_resource(tables: Seq<Named>, n: int, r: Option<Resource>) -> bool {
    exists|x: Option<Resource>| #[trigger] resource_bytes(x) == resource_bytes(r) && describes(tables, n, x)
}

/// The same of a scope: its attributes, with its name and its version among
/// them.
pub open spec fn tells_scope(tables: Seq<Named>, n: int, s: Option<InstrumentationScope>) -> bool {
    exists|x: Option<InstrumentationScope>| #[trigger]
        scope_bytes(x) == scope_bytes(s) && has_attrs(tables, "scope_attrs"@, n, scope_pairs(x))
}

/// What stands among the rows stands in the table.
pub proof fn lemma_has_attrs(
    tables: Seq<Named>,
    name: Seq<char>,
    rows: Seq<AttrRow>,
    parent: int,
    ps: Seq<Pair>,
)
    requires
        table_named(tables, name) matches Some(t) && attrs_table_of(t, rows),
        all_stand(rows, parent, ps),
    ensures
        has_attrs(tables, name, parent, ps),
{
    let t = table_named(tables, name)->0;
    assert forall|a: int| 0 <= a < ps.len() implies has_attr(tables, name, parent, #[trigger] ps[a]) by {
        let y = choose|y: int| #[trigger] stands(rows, parent, ps[a], y);
        lemma_attr_cells(t, rows, y, parent, ps[a]);
    }
}

proof fn lemma_resource_cells(t: Table, rows: Seq<ResourceRow>, n: int)
    requires
        resources_table_of(t, rows),
        0 <= n < rows.len(),
        rows.len() <= 65536,
    ensures
        u16_at(t, "id"@, n, n),
        u64_at(t, "key"@, n, rows[n].key as int),
        u32_at(t, "dropped_attributes_count"@, n, rows[n].dropped as int),
{
    let names = resource_names();
    lemma_resource_names();
    lemma_columns(t, names);
    assert(t.named(names[0]) is Some && t.named(names[1]) is Some && t.named(names[2]) is Some);
    assert(t.fields@[0].column.valid is None && t.fields@[1].column.valid is None
        && t.fields@[2].column.valid is None);
}

/// The numbers of resources and scopes mean in the tables what they mean where
/// they were given.
pub proof fn lemma_told(tables: Seq<Named>, rs: Interned)
    requires
        is_faithful(rs),
        table_named(tables, "resources"@) matches Some(t) && resources_table_of(t, rs.rows),
        table_named(tables, "resource_attrs"@) matches Some(t) && attrs_table_of(
            t,
            rs.resource_attrs,
        ),
        table_named(tables, "scope_attrs"@) matches Some(t) && attrs_table_of(t, rs.scope_attrs),
    ensures
        forall|n: int, r: Option<Resource>|
            is_number_of(rs, n, r) ==> #[trigger] tells_resource(tables, n, r),
        forall|n: int, s: Option<InstrumentationScope>|
            is_scope_number_of(rs, n, s) ==> #[trigger] tells_scope(tables, n, s),
{
    assert forall|n: int, r: Option<Resource>| is_number_of(rs, n, r) implies #[trigger]
        tells_resource(tables, n, r) by {
        let x = choose|x: Option<Resource>| #[trigger]
            resource_bytes(x) == resource_bytes(r) && row_is(rs, n, x);
        let t = table_named(tables, "resources"@)->0;
        lemma_resource_cells(t, rs.rows, n);
        lemma_has_attrs(tables, "resource_attrs"@, rs.resource_attrs, n, resource_pairs(x));
        assert(resource_bytes(x) == resource_bytes(r) && describes(tables, n, x));
    }
    assert forall|n: int, s: Option<InstrumentationScope>| is_scope_number_of(rs, n, s) implies #[trigger]
        tells_scope(tables, n, s) by {
        let x = choose|x: Option<InstrumentationScope>| #[trigger]
            scope_bytes(x) == scope_bytes(s) && all_stand(rs.scope_attrs, n, scope_pairs(x));
        lemma_has_attrs(tables, "scope_attrs"@, rs.scope_attrs, n, scope_pairs(x));
        assert(scope_bytes(x) == scope_bytes(s) && has_attrs(
            tables,
            "scope_attrs"@,
            n,
            scope_pairs(x),
        ));
    }
}

} // verus!
