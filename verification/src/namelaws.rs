//! What an entity is called.

use crate::attrfilter::key_at;
use crate::frame::{keys_in, names_upto, placed, with_names};
use crate::framelaws::name_said;
use crate::scan::{table_named, u16s_named, u32s_named, u64s_named, Named};
use crate::table::{Column, Data, Table};
use crate::walklaws::{is_last_of, lemma_filled, lemma_placed};
use vstd::prelude::*;

verus! {

/// The resource of a number has the identity: of the rows of the resource table
/// that have the number, the last one says so.
pub open spec fn has_identity(tables: Seq<Named>, id: int, k: u64) -> bool {
    &&& table_named(tables, "resources"@) matches Some(r)
    &&& r.named("id"@) matches Some(a)
    &&& a.data matches Data::U16(ids)
    &&& r.named("key"@) matches Some(b)
    &&& b.data matches Data::U64(keys)
    &&& 0 <= id < r.rows
    &&& id <= 65535
    &&& exists|p: int| #[trigger] is_last_of(ids@, r.rows as int, id as u16, p) && keys@[p] == k
}

/// The row of the resource attributes is a service name, this one, of a resource
/// that has the identity.
pub open spec fn is_name_row(tables: Seq<Named>, row: int, k: u64, name: Seq<char>) -> bool {
    &&& table_named(tables, "resource_attrs"@) matches Some(a)
    &&& 0 <= row < a.rows
    &&& key_at(a, row) == "service.name"@
    &&& a.named("str"@) matches Some(c)
    &&& c.holds(row)
    &&& c.data matches Data::Dict32(codes, texts)
    &&& codes@[row] < texts@.len()
    &&& texts@[codes@[row] as int]@ == name
    &&& a.named("parent_id"@) matches Some(p)
    &&& p.data matches Data::U32(parents)
    &&& has_identity(tables, parents@[row] as int, k)
}

pub proof fn lemma_identity(tables: Seq<Named>, id: int, k: u64)
    requires
        k != 0,
        0 <= id,
    ensures
        has_identity(tables, id, k) <==> id < keys_in(tables).len() && id <= 65535 && keys_in(
            tables,
        )[id] == k,
{
    let keys = keys_in(tables);
    if let Some(r) = table_named(tables, "resources"@) {
        if let (Some(ids), Some(vals)) = (u16s_named(r, "id"@), u64s_named(r, "key"@)) {
            crate::walklaws::lemma_slots(ids, vals, r.rows as nat, r.rows as nat);
            if has_identity(tables, id, k) {
                let p = choose|p: int| #[trigger]
                    is_last_of(ids, r.rows as int, id as u16, p) && vals[p] == k;
                lemma_placed(ids, vals, r.rows as nat, r.rows as nat, id as u16, p);
            }
            if id < keys.len() && id <= 65535 && keys[id] == k {
                let p = lemma_filled(ids, vals, r.rows as nat, r.rows as nat, id as u16);
                assert(is_last_of(ids, r.rows as int, id as u16, p) && vals[p] == k);
            }
        }
    }
}

proof fn lemma_wide(ids: Seq<u16>, vals: Seq<u64>, slots: nat, n: nat, id: int)
    requires
        65535 < id < slots,
    ensures
        placed(ids, vals, slots, n).len() == slots,
        placed(ids, vals, slots, n)[id] == 0,
    decreases n,
{
    if n > 0 {
        lemma_wide(ids, vals, slots, (n - 1) as nat, id);
    }
}

pub proof fn lemma_narrow(tables: Seq<Named>, id: int)
    requires
        65535 < id < keys_in(tables).len(),
    ensures
        keys_in(tables)[id] == 0,
{
    let r = table_named(tables, "resources"@)->0;
    let ids = u16s_named(r, "id"@)->0;
    let vals = u64s_named(r, "key"@)->0;
    crate::walklaws::lemma_slots(ids, vals, r.rows as nat, r.rows as nat);
    lemma_wide(ids, vals, r.rows as nat, r.rows as nat, id);
}

/// The first row to name the entity is this one.
pub open spec fn is_first_name_row(tables: Seq<Named>, row: int, k: u64, name: Seq<char>) -> bool {
    &&& is_name_row(tables, row, k, name)
    &&& forall|j: int, other: Seq<char>| 0 <= j < row ==> !#[trigger] is_name_row(tables, j, k, other)
}

proof fn lemma_names(
    tables: Seq<Named>,
    a: Table,
    parents: Seq<u32>,
    texts: Column,
    n: nat,
    k: u64,
) -> (row: int)
    requires
        table_named(tables, "resource_attrs"@) == Some(a),
        u32s_named(a, "parent_id"@) == Some(parents),
        a.named("str"@) == Some(texts),
        texts.wf(),
        texts.data is Dict32,
        texts.spec_len() == a.rows,
        n <= a.rows,
        k != 0,
    ensures
        ({
            let names = names_upto(Map::empty(), a, parents, texts, keys_in(tables), n);
            if names.contains_key(k) {
                0 <= row < n && is_first_name_row(tables, row, k, names[k])
            } else {
                forall|j: int, other: Seq<char>|
                    0 <= j < n ==> !#[trigger] is_name_row(tables, j, k, other)
            }
        }),
    decreases n,
{
    let keys = keys_in(tables);
    if n == 0 {
        0
    } else {
        let before = names_upto(Map::empty(), a, parents, texts, keys, (n - 1) as nat);
        let now = names_upto(Map::empty(), a, parents, texts, keys, n);
        let row = lemma_names(tables, a, parents, texts, (n - 1) as nat, k);
        let p = parents[n - 1] as int;
        lemma_identity(tables, p, k);
        if 65535 < p < keys.len() {
            lemma_narrow(tables, p);
        }
        if before.contains_key(k) {
            row
        } else {
            if now.contains_key(k) {
                assert(is_name_row(tables, n - 1, k, now[k]));
            }
            n - 1
        }
    }
}

/// A block calls an entity by the service name of one of the resources that have
/// its identity: the first that its attributes list. Where none of them has a
/// service name it does not call the entity anything.
pub proof fn law_an_entity_is_called_by_its_service_name(tables: Seq<Named>, k: u64)
    requires
        table_named(tables, "resource_attrs"@) matches Some(a) ==> a.wf() && (a.named("parent_id"@)
            matches Some(c) && c.data is U32) && (a.named("str"@) matches Some(c)
            && c.data is Dict32 && c.wf() && c.spec_len() == a.rows),
        k != 0,
    ensures
        name_said(tables, k) is Some ==> exists|row: int| #[trigger]
            is_first_name_row(tables, row, k, name_said(tables, k)->0),
        name_said(tables, k) is None ==> forall|row: int, name: Seq<char>|
            !#[trigger] is_name_row(tables, row, k, name),
{
    let names = with_names(Map::empty(), tables, keys_in(tables));
    match table_named(tables, "resource_attrs"@) {
        Some(a) => {
            let parents = u32s_named(a, "parent_id"@)->0;
            let texts = a.named("str"@)->0;
            let row = lemma_names(tables, a, parents, texts, a.rows as nat, k);
            if names.contains_key(k) {
                assert(name_said(tables, k) == Some(names[k]));
                assert(is_first_name_row(tables, row, k, name_said(tables, k)->0));
            } else {
                assert forall|row: int, name: Seq<char>| !#[trigger] is_name_row(
                    tables,
                    row,
                    k,
                    name,
                ) by {}
            }
        },
        None => {
            assert(!names.contains_key(k));
            assert(name_said(tables, k) is None);
            assert forall|row: int, name: Seq<char>| !#[trigger] is_name_row(tables, row, k, name) by {}
        },
    }
}

} // verus!
