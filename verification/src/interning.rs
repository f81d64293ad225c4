//! The `resources`, `resource_attrs` and `scope_attrs` tables, shared by every
//! signal.
//!
//! Interning is keyed on the canonical encoding of the message. Storing the
//! bytes rather than a hash means no collision risk. It is deliberately local to
//! a block, so that a block can be deleted by unlinking it.

use crate::attrs::{
    add_counts, appended, attrs_table_of, heap_of, keys_in, takes, val_of, AttrRow, AttrsBuilder,
};
use crate::columns::{add_count, copy_all, firsts, lemma_small_count, wrapped_count};
use crate::error::Error;
use crate::identity::{identity_of, resource_key};
use crate::index::ByteIndex;
use crate::order::utf8;
use crate::otlp::{pairs, AnyKind, AnyValue, InstrumentationScope, KeyValue, Pair, Resource, Val};
use crate::proto::{encode_pairs, encode_pairs_as, kvlist_bytes, put_run, run_field, tagged_bytes};
use crate::scan::Named;
use crate::schema::DICT_CAP;
use crate::table::{Column, Data, Field, Table};
use crate::wire::{put_varint, varint};
use vstd::prelude::*;

verus! {

// ---------------------------------------------------------------------------
// Messages as bytes.

/// A counter field, left out where it is zero.
pub open spec fn count_field(tag: u8, n: u32) -> Seq<u8> {
    if n == 0 {
        Seq::empty()
    } else {
        seq![(tag * 8) as u8] + varint(n as nat)
    }
}

/// A text field, left out where it is empty.
pub open spec fn text_field(tag: u8, s: Seq<char>) -> Seq<u8> {
    if s.len() == 0 {
        Seq::empty()
    } else {
        run_field(tag, utf8(s))
    }
}

/// The attributes of a resource that may not be there.
pub open spec fn resource_pairs(r: Option<Resource>) -> Seq<Pair> {
    match r {
        Some(x) => pairs(x.attributes@),
        None => Seq::empty(),
    }
}

/// The dropped-attribute count of a resource that may not be there.
pub open spec fn resource_dropped(r: Option<Resource>) -> u32 {
    match r {
        Some(x) => x.dropped_attributes_count,
        None => 0,
    }
}

/// A resource as the bytes of its message. No resource at all reads as an empty
/// one.
pub open spec fn resource_bytes(r: Option<Resource>) -> Seq<u8> {
    kvlist_bytes(resource_pairs(r)) + count_field(2, resource_dropped(r))
}

/// A scope as the bytes of its message.
pub open spec fn scope_bytes(s: Option<InstrumentationScope>) -> Seq<u8> {
    match s {
        Some(x) => text_field(1, x.name@) + text_field(2, x.version@) + tagged_bytes(
            3,
            pairs(x.attributes@),
        ) + count_field(4, x.dropped_attributes_count),
        None => Seq::empty(),
    }
}

fn put_count(out: &mut Vec<u8>, tag: u8, n: u32)
    requires
        tag < 16,
    ensures
        final(out)@ == old(out)@ + count_field(tag, n),
{
    let ghost was = out@;
    if n != 0 {
        out.push(tag * 8);
        put_varint(out, n as u64);
        assert(out@ =~= was + count_field(tag, n));
    } else {
        assert(was + count_field(tag, n) =~= was);
    }
}

fn put_text(out: &mut Vec<u8>, tag: u8, s: &str)
    requires
        0 < tag < 16,
    ensures
        final(out)@ == old(out)@ + text_field(tag, s@),
{
    let ghost was = out@;
    if s.is_empty() {
        assert(was + text_field(tag, s@) =~= was);
    } else {
        put_run(out, tag, s.as_bytes());
    }
}

fn encode_resource(r: Option<&Resource>) -> (out: Vec<u8>)
    ensures
        out@ == resource_bytes(
            match r {
                Some(x) => Some(*x),
                None => None,
            },
        ),
{
    match r {
        Some(x) => {
            let mut out = encode_pairs(&x.attributes);
            put_count(&mut out, 2, x.dropped_attributes_count);
            out
        },
        None => {
            let out: Vec<u8> = Vec::new();
            assert(out@ =~= kvlist_bytes(Seq::empty()) + count_field(2, 0));
            out
        },
    }
}

fn encode_scope(s: Option<&InstrumentationScope>) -> (out: Vec<u8>)
    ensures
        out@ == scope_bytes(
            match s {
                Some(x) => Some(*x),
                None => None,
            },
        ),
{
    let mut out: Vec<u8> = Vec::new();
    if let Some(x) = s {
        put_text(&mut out, 1, x.name.as_str());
        put_text(&mut out, 2, x.version.as_str());
        encode_pairs_as(&mut out, 3, &x.attributes);
        put_count(&mut out, 4, x.dropped_attributes_count);
        assert(out@ =~= scope_bytes(Some(*x)));
    }
    out
}

// ---------------------------------------------------------------------------
// Resources and scopes.

/// One row of the `resources` table.
pub struct ResourceRow {
    /// The stable identity across blocks.
    pub key: u64,
    pub dropped: u32,
}

/// What has been interned.
pub struct Interned {
    /// The distinct resources, as bytes; a resource's number is its position.
    pub resources: Seq<Seq<u8>>,
    /// The distinct scopes, as bytes; a scope's number is its position.
    pub scopes: Seq<Seq<u8>>,
    pub rows: Seq<ResourceRow>,
    pub resource_attrs: Seq<AttrRow>,
    pub scope_attrs: Seq<AttrRow>,
}

/// What interning something comes to: the number it has, or the label of what
/// is full.
pub enum Outcome {
    Id(u16),
    Full(Seq<char>),
}

/// What has been interned after one more resource.
pub open spec fn with_resource(st: Interned, r: Option<Resource>) -> (Interned, Outcome) {
    let b = resource_bytes(r);
    if st.resources.contains(b) {
        (st, Outcome::Id(st.resources.index_of(b) as u16))
    } else if st.resources.len() >= DICT_CAP {
        (st, Outcome::Full("resource_id"@))
    } else {
        let id = st.resources.len() as u16;
        let end = appended(st.resource_attrs, id as u32, resource_pairs(r));
        (
            Interned {
                resources: st.resources.push(b),
                rows: st.rows.push(
                    ResourceRow {
                        key: identity_of(resource_pairs(r)),
                        dropped: resource_dropped(r),
                    },
                ),
                resource_attrs: end.0,
                ..st
            },
            if end.1 {
                Outcome::Id(id)
            } else {
                Outcome::Full("resource_attrs.key"@)
            },
        )
    }
}

/// A text as an attribute of a scope, left out where it is empty.
pub open spec fn scope_text(key: Seq<char>, s: Seq<char>) -> Seq<Pair> {
    if s.len() == 0 {
        Seq::empty()
    } else {
        seq![Pair { key, value: Some(Val::Str(s)) }]
    }
}

/// The attributes a scope is stored with: its own, and its name and version,
/// which are not attributes on the wire; modelling them as such means one table
/// and one join path instead of two.
pub open spec fn scope_pairs(s: Option<InstrumentationScope>) -> Seq<Pair> {
    match s {
        Some(x) => pairs(x.attributes@) + scope_text("otel.scope.name"@, x.name@) + scope_text(
            "otel.scope.version"@,
            x.version@,
        ),
        None => Seq::empty(),
    }
}

/// What has been interned after one more scope.
pub open spec fn with_scope(st: Interned, s: Option<InstrumentationScope>) -> (Interned, Outcome) {
    let b = scope_bytes(s);
    if st.scopes.contains(b) {
        (st, Outcome::Id(st.scopes.index_of(b) as u16))
    } else if st.scopes.len() >= DICT_CAP {
        (st, Outcome::Full("scope_id"@))
    } else {
        let id = st.scopes.len() as u16;
        let end = appended(st.scope_attrs, id as u32, scope_pairs(s));
        (
            Interned { scopes: st.scopes.push(b), scope_attrs: end.0, ..st },
            if end.1 {
                Outcome::Id(id)
            } else {
                Outcome::Full("scope_attrs.key"@)
            },
        )
    }
}

/// A result that says what interning came to.
pub open spec fn says(r: Result<u16, Error>, o: Outcome) -> bool {
    match o {
        Outcome::Id(id) => r == Ok::<u16, Error>(id),
        Outcome::Full(label) => r matches Err(Error::DictionaryFull(l)) && l@ == label,
    }
}

/// The finished `resources` table: numbers from zero up, identities, and
/// dropped-attribute counts.
pub open spec fn resources_table_of(t: Table, rows: Seq<ResourceRow>) -> bool {
    &&& t.wf()
    &&& t.rows == rows.len()
    &&& t.fields@.len() == 3
    &&& t.fields@[0].name@ == "id"@
    &&& t.fields@[0].column.data matches Data::U16(v) && forall|i: int|
        0 <= i < rows.len() ==> (#[trigger] v@[i]) == i
    &&& t.fields@[1].name@ == "key"@
    &&& t.fields@[1].column.data matches Data::U64(v) && forall|i: int|
        0 <= i < rows.len() ==> (#[trigger] v@[i]) == rows[i].key
    &&& t.fields@[2].name@ == "dropped_attributes_count"@
    &&& t.fields@[2].column.data matches Data::U32(v) && forall|i: int|
        0 <= i < rows.len() ==> (#[trigger] v@[i]) == rows[i].dropped
    &&& forall|i: int| 0 <= i < 3 ==> (#[trigger] t.fields@[i]).column.valid is None
}

/// The three tables every signal's block lists, in order.
pub open spec fn interned_tables(v: Seq<Named>, st: Interned) -> bool {
    &&& v.len() == 3
    &&& v[0].name@ == "resources"@
    &&& resources_table_of(v[0].table, st.rows)
    &&& v[1].name@ == "resource_attrs"@
    &&& attrs_table_of(v[1].table, st.resource_attrs)
    &&& v[2].name@ == "scope_attrs"@
    &&& attrs_table_of(v[2].table, st.scope_attrs)
}

/// The distinct resources and scopes of a block, and their attributes.
pub struct ResourceScope {
    pub resources: ByteIndex,
    pub scopes: ByteIndex,
    pub res_id: Vec<u16>,
    pub res_key: Vec<u64>,
    pub res_dropped: Vec<u32>,
    pub resource_attrs: AttrsBuilder,
    pub scope_attrs: AttrsBuilder,
}

impl View for ResourceScope {
    type V = Interned;

    closed spec fn view(&self) -> Interned {
        Interned {
            resources: self.resources@,
            scopes: self.scopes@,
            rows: Seq::new(
                self.res_key@.len(),
                |i: int| ResourceRow { key: self.res_key@[i], dropped: self.res_dropped@[i] },
            ),
            resource_attrs: self.resource_attrs@,
            scope_attrs: self.scope_attrs@,
        }
    }
}

impl Interned {
    /// Nothing interned.
    pub open spec fn none() -> Interned {
        Interned {
            resources: Seq::empty(),
            scopes: Seq::empty(),
            rows: Seq::empty(),
            resource_attrs: Seq::empty(),
            scope_attrs: Seq::empty(),
        }
    }
}

impl Default for ResourceScope {
    fn default() -> (r: ResourceScope)
        ensures
            r.wf(),
            r@ == Interned::none(),
    {
        ResourceScope::new()
    }
}

impl ResourceScope {
    pub closed spec fn wf(&self) -> bool {
        &&& self.resources.wf()
        &&& self.scopes.wf()
        &&& self.resources@.len() <= DICT_CAP
        &&& self.scopes@.len() <= DICT_CAP
        &&& self.res_id@.len() == self.resources@.len()
        &&& self.res_key@.len() == self.resources@.len()
        &&& self.res_dropped@.len() == self.resources@.len()
        &&& forall|i: int| 0 <= i < self.res_id@.len() ==> (#[trigger] self.res_id@[i]) == i
        &&& self.resource_attrs.wf()
        &&& self.resource_attrs.label@ == "resource_attrs.key"@
        &&& self.scope_attrs.wf()
        &&& self.scope_attrs.label@ == "scope_attrs.key"@
    }

    pub fn new() -> (r: ResourceScope)
        ensures
            r.wf(),
            r@ == Interned::none(),
    {
        let r = ResourceScope {
            resources: ByteIndex::new(),
            scopes: ByteIndex::new(),
            res_id: Vec::new(),
            res_key: Vec::new(),
            res_dropped: Vec::new(),
            resource_attrs: AttrsBuilder::new("resource_attrs.key"),
            scope_attrs: AttrsBuilder::new("scope_attrs.key"),
        };
        assert(r@.rows =~= Seq::<ResourceRow>::empty());
        r
    }

    /// Whether this block can take `resources` more distinct resources,
    /// `scopes` more distinct scopes, and their attributes.
    pub fn has_headroom(&self, resources: usize, scopes: usize, res_kv: usize, scope_kv: usize) -> (r:
        bool)
        requires
            self.wf(),
        ensures
            r == {
                &&& self@.resources.len() + resources <= DICT_CAP
                &&& self@.scopes.len() + scopes <= DICT_CAP
                &&& firsts(keys_in(self@.resource_attrs)).len() + res_kv <= DICT_CAP
                &&& firsts(keys_in(self@.scope_attrs)).len() + scope_kv <= DICT_CAP
            },
    {
        resources <= DICT_CAP && self.resources.len() <= DICT_CAP - resources && scopes <= DICT_CAP
            && self.scopes.len() <= DICT_CAP - scopes && self.resource_attrs.has_headroom(res_kv)
            && self.scope_attrs.has_headroom(scope_kv)
    }

    /// Attribute rows, for the seal-size estimate. The count wraps at the width
    /// of a word.
    pub fn len(&self) -> (n: usize)
        requires
            self.wf(),
        ensures
            n == wrapped_count(self@.resource_attrs.len() + self@.scope_attrs.len()),
    {
        let a: usize = self.resource_attrs.len();
        let b: usize = self.scope_attrs.len();
        proof {
            lemma_small_count(a);
            lemma_small_count(b);
        }
        add_counts(a, b, Ghost(a as nat), Ghost(b as nat))
    }

    pub fn is_empty(&self) -> (r: bool)
        requires
            self.wf(),
        ensures
            r == (self@.resource_attrs.len() == 0 && self@.scope_attrs.len() == 0),
    {
        self.resource_attrs.is_empty() && self.scope_attrs.is_empty()
    }

    /// The bytes in the value heaps of both attribute tables. The count wraps at
    /// the width of a word.
    pub fn heap_bytes(&self) -> (n: usize)
        requires
            self.wf(),
        ensures
            n == wrapped_count(heap_of(self@.resource_attrs) + heap_of(self@.scope_attrs)),
    {
        let a: usize = self.resource_attrs.heap_bytes();
        let b: usize = self.scope_attrs.heap_bytes();
        add_counts(
            a,
            b,
            Ghost(heap_of(self@.resource_attrs)),
            Ghost(heap_of(self@.scope_attrs)),
        )
    }

    /// The number of a resource, interning it where it is new. A full key space
    /// means "seal this block", never "drop data".
    pub fn resource(&mut self, res: Option<&Resource>) -> (r: Result<u16, Error>)
        requires
            old(self).wf(),
        ensures
            final(self).wf(),
            ({
                let end = with_resource(
                    old(self)@,
                    match res {
                        Some(x) => Some(*x),
                        None => None,
                    },
                );
                &&& final(self)@ == end.0
                &&& says(r, end.1)
            }),
    {
        let ghost whole: Option<Resource> = match res {
            Some(x) => Some(*x),
            None => None,
        };
        let ghost before = *self;
        let key = encode_resource(res);
        proof {
            self.resources.lemma_distinct();
        }
        if let Some(i) = self.resources.find(key.as_slice()) {
            proof {
                assert(self@.resources.contains(key@));
                assert(self@.resources[i as int] == key@);
                let k = self@.resources.index_of(key@);
                assert(self@.resources[k] == key@);
                assert(k == i);
            }
            return Ok(i as u16);
        }
        let n: usize = self.resources.len();
        if n >= DICT_CAP {
            return Err(Error::DictionaryFull("resource_id"));
        }
        let id: u16 = n as u16;
        self.resources.push(key);
        self.res_id.push(id);
        let none: Vec<KeyValue> = Vec::new();
        let attrs: &Vec<KeyValue> = match res {
            Some(x) => &x.attributes,
            None => &none,
        };
        assert(pairs(attrs@) == resource_pairs(whole)) by {
            if res is None {
                assert(attrs@ =~= Seq::<KeyValue>::empty());
            }
        }
        self.res_key.push(resource_key(attrs));
        self.res_dropped.push(
            match res {
                Some(x) => x.dropped_attributes_count,
                None => 0,
            },
        );
        proof {
            assert(self@.rows =~= before@.rows.push(
                ResourceRow {
                    key: identity_of(resource_pairs(whole)),
                    dropped: resource_dropped(whole),
                },
            ));
        }
        let done = self.resource_attrs.append_all(id as u32, attrs);
        proof {
            assert(self@.rows =~= before@.rows.push(
                ResourceRow {
                    key: identity_of(resource_pairs(whole)),
                    dropped: resource_dropped(whole),
                },
            ));
        }
        match done {
            Ok(_) => Ok(id),
            Err(e) => Err(e),
        }
    }

    fn scope_text_row(&mut self, id: u16, key: &str, s: &String) -> (r: Result<(), Error>)
        requires
            old(self).wf(),
        ensures
            final(self).wf(),
            final(self)@ == (Interned {
                scope_attrs: appended(
                    old(self)@.scope_attrs,
                    id as u32,
                    scope_text(key@, s@),
                ).0,
                ..old(self)@
            }),
            r is Ok <==> appended(old(self)@.scope_attrs, id as u32, scope_text(key@, s@)).1,
            r matches Err(e) ==> e matches Error::DictionaryFull(l) && l@ == "scope_attrs.key"@,
    {
        reveal_with_fuel(appended, 2);
        let ghost before = self@;
        if s.as_str().is_empty() {
            return Ok(());
        }
        let value = AnyValue { value: Some(AnyKind::StringValue(s.as_str().to_owned())) };
        proof {
            let ps = scope_text(key@, s@);
            assert(ps.skip(1) =~= Seq::<Pair>::empty());
            assert(val_of(Some(&value)) == Val::Str(s@));
        }
        let r = self.scope_attrs.append(id as u32, key, Some(&value));
        assert(self@.rows =~= before.rows);
        r
    }

    /// The number of a scope, interning it where it is new.
    pub fn scope(&mut self, scope: Option<&InstrumentationScope>) -> (r: Result<u16, Error>)
        requires
            old(self).wf(),
        ensures
            final(self).wf(),
            ({
                let end = with_scope(
                    old(self)@,
                    match scope {
                        Some(x) => Some(*x),
                        None => None,
                    },
                );
                &&& final(self)@ == end.0
                &&& says(r, end.1)
            }),
    {
        let ghost whole: Option<InstrumentationScope> = match scope {
            Some(x) => Some(*x),
            None => None,
        };
        let ghost before = *self;
        let key = encode_scope(scope);
        proof {
            self.scopes.lemma_distinct();
        }
        if let Some(i) = self.scopes.find(key.as_slice()) {
            proof {
                assert(self@.scopes.contains(key@));
                assert(self@.scopes[i as int] == key@);
                let k = self@.scopes.index_of(key@);
                assert(self@.scopes[k] == key@);
                assert(k == i);
            }
            return Ok(i as u16);
        }
        let n: usize = self.scopes.len();
        if n >= DICT_CAP {
            return Err(Error::DictionaryFull("scope_id"));
        }
        let id: u16 = n as u16;
        self.scopes.push(key);
        assert(self@.rows =~= before@.rows);
        let ghost rows0 = self@.scope_attrs;
        if let Some(s) = scope {
            let ghost a = pairs(s.attributes@);
            let ghost b = scope_text("otel.scope.name"@, s.name@);
            let ghost c = scope_text("otel.scope.version"@, s.version@);
            proof {
                lemma_appended_concat(rows0, id as u32, a, b);
                lemma_appended_concat(rows0, id as u32, a + b, c);
            }
            let first = self.scope_attrs.append_all(id as u32, &s.attributes);
            assert(self@.rows =~= before@.rows);
            match first {
                Ok(_) => {},
                Err(e) => {
                    return Err(e);
                },
            }
            match self.scope_text_row(id, "otel.scope.name", &s.name) {
                Ok(_) => {},
                Err(e) => {
                    return Err(e);
                },
            }
            match self.scope_text_row(id, "otel.scope.version", &s.version) {
                Ok(_) => {},
                Err(e) => {
                    return Err(e);
                },
            }
        }
        Ok(id)
    }

    /// The three tables, in the order every signal's block lists them:
    /// `resources`, `resource_attrs`, `scope_attrs`.
    pub fn finish(&self) -> (r: Result<Vec<Named>, Error>)
        requires
            self.wf(),
        ensures
            r matches Ok(v) && interned_tables(v@, self@),
    {
        let mut fields: Vec<Field> = Vec::new();
        fields.push(
            Field {
                name: "id".to_owned(),
                column: Column { valid: None, data: Data::U16(copy_all(&self.res_id)) },
            },
        );
        fields.push(
            Field {
                name: "key".to_owned(),
                column: Column { valid: None, data: Data::U64(copy_all(&self.res_key)) },
            },
        );
        fields.push(
            Field {
                name: "dropped_attributes_count".to_owned(),
                column: Column { valid: None, data: Data::U32(copy_all(&self.res_dropped)) },
            },
        );
        let resources = Table { fields, rows: self.res_id.len() };
        let a = match self.resource_attrs.finish() {
            Ok(t) => t,
            Err(e) => {
                return Err(e);
            },
        };
        let b = match self.scope_attrs.finish() {
            Ok(t) => t,
            Err(e) => {
                return Err(e);
            },
        };
        let mut out: Vec<Named> = Vec::new();
        out.push(Named { name: "resources".to_owned(), table: resources });
        out.push(Named { name: "resource_attrs".to_owned(), table: a });
        out.push(Named { name: "scope_attrs".to_owned(), table: b });
        Ok(out)
    }
}

/// Appending two lists one after the other is appending them as one, up to the
/// first refusal.
pub proof fn lemma_appended_concat(rows: Seq<AttrRow>, parent: u32, a: Seq<Pair>, b: Seq<Pair>)
    ensures
        appended(rows, parent, a + b) == {
            let first = appended(rows, parent, a);
            if first.1 {
                appended(first.0, parent, b)
            } else {
                first
            }
        },
    decreases a.len(),
{
    if a.len() == 0 {
        assert(a + b =~= b);
    } else {
        let row = AttrRow {
            parent,
            key: a[0].key,
            value: crate::attrs::value_or_empty(a[0].value),
        };
        assert((a + b)[0] == a[0]);
        assert((a + b).skip(1) =~= a.skip(1) + b);
        if takes(rows, row) {
            lemma_appended_concat(rows.push(row), parent, a.skip(1), b);
        }
    }
}

/// Count the attributes a scope will contribute, for a headroom check: its own,
/// and two more because its name and version are stored as attributes. The
/// count wraps at the width of a word.
pub fn scope_kv(scope: Option<&InstrumentationScope>) -> (n: usize)
    ensures
        n == match scope {
            Some(s) => wrapped_count(s.attributes@.len() + 2),
            None => 2usize,
        },
{
    match scope {
        Some(s) => {
            let n: usize = s.attributes.len();
            proof {
                lemma_small_count(n);
            }
            add_count(n, 2, Ghost(n as nat))
        },
        None => 2,
    }
}

/// Count the attributes a resource will contribute, for a headroom check.
pub fn resource_kv(res: Option<&Resource>) -> (n: usize)
    ensures
        n == match res {
            Some(r) => r.attributes@.len(),
            None => 0,
        },
{
    match res {
        Some(r) => r.attributes.len(),
        None => 0,
    }
}

// ---------------------------------------------------------------------------
// What interning is good for.

/// Interning the same message again gives the same number and changes nothing.
pub proof fn law_interning_is_idempotent(st: Interned, r: Option<Resource>, again: Option<Resource>)
    requires
        st.resources.no_duplicates(),
        st.resources.len() <= DICT_CAP,
        resource_bytes(r) == resource_bytes(again),
        with_resource(st, r).1 is Id,
    ensures
        with_resource(with_resource(st, r).0, again) == with_resource(st, r),
{
    let b = resource_bytes(r);
    let (next, o) = with_resource(st, r);
    if !st.resources.contains(b) {
        assert(next.resources[st.resources.len() as int] == b);
        assert(next.resources.contains(b));
        let k = next.resources.index_of(b);
        assert(next.resources[k] == b);
        if k < st.resources.len() {
            assert(st.resources[k] == b);
        }
    }
}

/// Two messages that differ never share a number, and the numbers are dense: a
/// new message gets the count of those before it.
pub proof fn law_interning_tells_apart(st: Interned, r: Option<Resource>, other: Option<Resource>)
    requires
        st.resources.no_duplicates(),
        st.resources.len() < DICT_CAP,
        resource_bytes(r) != resource_bytes(other),
        with_resource(st, r).1 is Id,
        with_resource(with_resource(st, r).0, other).1 is Id,
    ensures
        with_resource(st, r).1 != with_resource(with_resource(st, r).0, other).1,
        !st.resources.contains(resource_bytes(r)) ==> with_resource(st, r).1 == Outcome::Id(
            st.resources.len() as u16,
        ),
{
    let a = resource_bytes(r);
    let b = resource_bytes(other);
    let next = with_resource(st, r).0;
    if st.resources.contains(a) {
        assert(st.resources[st.resources.index_of(a)] == a);
    }
    if next.resources.contains(b) {
        let k = next.resources.index_of(b);
        assert(next.resources[k] == b);
        assert(k < next.resources.len());
    }
}

} // verus!
