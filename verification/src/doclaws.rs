//! What responses are written as: their members by name, with their values.

use crate::attrs::{attr_row_is, attrs_table_of, AttrRow};
use crate::emit::{
    any_doc, attr_doc, attrs_upto, fields_doc, fk_of, items_doc, level_put, members_doc, At,
};
use crate::facets::{listing_doc, Entity};
use crate::float::Floats;
use crate::frame::{entities_doc, frame_doc, traces_doc, Region};
use crate::json::{hex_of, quoted, Doc};
use crate::otlp::{Pair, Val};
use crate::proto::{any_bytes, fits, law_any_round_trip, DEPTH};
use crate::scan::Block;
use crate::servicemap::{edges_doc, map_doc, nodes_doc, Edge, MapState, Node};
use crate::table::{Column, Data, Field, Table};
use crate::tally::Call;
use crate::text::{decimal, signed};
use crate::textlaws::{keys_ascend, last_with_key, law_the_most_specific_level_wins, with_key};
use vstd::prelude::*;

verus! {

// ---------------------------------------------------------------------------
// Texts.

/// Some texts, with commas between them.
pub open spec fn joined(parts: Seq<Seq<char>>) -> Seq<char>
    decreases parts.len(),
{
    if parts.len() == 0 {
        Seq::empty()
    } else if parts.len() == 1 {
        parts[0]
    } else {
        joined(parts.drop_last()) + seq![','] + parts.last()
    }
}

/// A member of an object: its name and its value.
pub open spec fn member(name: Seq<char>, value: Seq<char>) -> Seq<char> {
    quoted(name) + seq![':'] + value
}

/// An object of some members.
pub open spec fn object(members: Seq<Seq<char>>) -> Seq<char> {
    seq!['{'] + joined(members) + seq!['}']
}

/// An array of some values.
pub open spec fn array(values: Seq<Seq<char>>) -> Seq<char> {
    seq!['['] + joined(values) + seq![']']
}

/// A number as the string of its digits.
pub open spec fn number_string(i: int) -> Seq<char> {
    seq!['"'] + signed(i) + seq!['"']
}

/// Bytes as the string of their hexadecimal digits.
pub open spec fn hex_string(b: Seq<u8>) -> Seq<char> {
    seq!['"'] + hex_of(b) + seq!['"']
}

/// A truth value.
pub open spec fn truth(b: bool) -> Seq<char> {
    if b {
        "true"@
    } else {
        "false"@
    }
}

/// A document that has been opened, with these parts in it.
pub open spec fn has_parts(d: Doc, base: Seq<char>, parts: Seq<Seq<char>>) -> bool {
    &&& d.text == base + joined(parts)
    &&& d.comma == (parts.len() > 0)
}

proof fn lemma_joined(parts: Seq<Seq<char>>, x: Seq<char>)
    ensures
        joined(parts.push(x)) == if parts.len() == 0 {
            x
        } else {
            joined(parts) + seq![','] + x
        },
{
    assert(parts.push(x).drop_last() =~= parts);
}

proof fn lemma_value(d: Doc, base: Seq<char>, parts: Seq<Seq<char>>, v: Seq<char>)
    requires
        has_parts(d, base, parts),
    ensures
        has_parts(d.value(v), base, parts.push(v)),
        d.value(v).text == d.lead() + v,
{
    lemma_joined(parts, v);
    assert(d.value(v).text =~= base + joined(parts.push(v)));
}

/// A member with a value that is written at once.
pub proof fn lemma_member(d: Doc, base: Seq<char>, parts: Seq<Seq<char>>, k: Seq<char>, v: Seq<char>)
    requires
        has_parts(d, base, parts),
    ensures
        has_parts(d.key(k).value(v), base, parts.push(member(k, v))),
{
    lemma_joined(parts, member(k, v));
    assert(d.key(k).value(v).text =~= base + joined(parts.push(member(k, v))));
}

/// A container that has just been opened has no parts.
pub proof fn lemma_opened(d: Doc, bracket: char)
    ensures
        has_parts(d.enter(bracket), d.lead().push(bracket), Seq::empty()),
{
    assert(d.lead().push(bracket) + joined(Seq::empty()) =~= d.lead().push(bracket));
}

/// A container among the parts of another, closed again.
pub proof fn lemma_closed(
    d: Doc,
    base: Seq<char>,
    parts: Seq<Seq<char>>,
    inner: Doc,
    inside: Seq<Seq<char>>,
    open: char,
    close: char,
)
    requires
        has_parts(d, base, parts),
        has_parts(inner, d.lead().push(open), inside),
    ensures
        has_parts(
            inner.leave(close),
            base,
            parts.push(seq![open] + joined(inside) + seq![close]),
        ),
{
    let v = seq![open] + joined(inside) + seq![close];
    lemma_value(d, base, parts, v);
    assert(inner.leave(close).text =~= d.lead() + v);
}

/// A member whose value is a container, closed again.
pub proof fn lemma_member_closed(
    d: Doc,
    base: Seq<char>,
    parts: Seq<Seq<char>>,
    k: Seq<char>,
    inner: Doc,
    inside: Seq<Seq<char>>,
    open: char,
    close: char,
)
    requires
        has_parts(d, base, parts),
        has_parts(inner, d.key(k).lead().push(open), inside),
    ensures
        has_parts(
            inner.leave(close),
            base,
            parts.push(member(k, seq![open] + joined(inside) + seq![close])),
        ),
{
    let v = seq![open] + joined(inside) + seq![close];
    lemma_member(d, base, parts, k, v);
    assert(inner.leave(close).text =~= d.key(k).value(v).text);
}

// ---------------------------------------------------------------------------
// Maps.

/// The name of a resource, or that it has none.
pub open spec fn name_or_unknown(names: Map<u64, Seq<char>>, key: u64) -> Seq<char> {
    if names.dom().contains(key) {
        names[key]
    } else {
        "unknown"@
    }
}

/// How long one of so many took on average. None are taken for one.
pub open spec fn average_of(sum: u64, count: u64) -> int {
    if count > 0 {
        sum as int / count as int
    } else {
        sum as int
    }
}

/// A node of a map.
pub open spec fn node_text(key: u64, n: Node, names: Map<u64, Seq<char>>) -> Seq<char> {
    object(
        seq![
            member("key"@, number_string(key as int)),
            member("name"@, quoted(name_or_unknown(names, key))),
            member("spans"@, decimal(n.spans as nat)),
            member("errors"@, decimal(n.errors as nat)),
            member("avg_nano"@, number_string(average_of(n.nanos, n.spans))),
        ],
    )
}

/// An edge of a map. What comes from outside comes from the entry.
pub open spec fn edge_text(c: Call, e: Edge) -> Seq<char> {
    object(
        seq![
            member(
                "from"@,
                if c.from == 0xffff_ffff_ffff_ffffu64 {
                    quoted("entry"@)
                } else {
                    number_string(c.from as int)
                },
            ),
            member("to"@, number_string(c.to as int)),
            member("calls"@, decimal(e.calls as nat)),
            member("errors"@, decimal(e.errors as nat)),
            member("avg_nano"@, number_string(average_of(e.nanos, e.calls))),
            member("max_nano"@, number_string(e.max_nanos as int)),
        ],
    )
}

spec fn node_texts(nodes: Seq<(u64, Node)>, names: Map<u64, Seq<char>>) -> Seq<Seq<char>> {
    Seq::new(nodes.len(), |i: int| node_text(nodes[i].0, nodes[i].1, names))
}

spec fn edge_texts(edges: Seq<(Call, Edge)>) -> Seq<Seq<char>> {
    Seq::new(edges.len(), |i: int| edge_text(edges[i].0, edges[i].1))
}

proof fn lemma_nodes(d: Doc, base: Seq<char>, nodes: Seq<(u64, Node)>, names: Map<u64, Seq<char>>)
    requires
        has_parts(d, base, Seq::empty()),
    ensures
        has_parts(nodes_doc(d, nodes, names), base, node_texts(nodes, names)),
    decreases nodes.len(),
{
    if nodes.len() == 0 {
        assert(node_texts(nodes, names) =~= Seq::empty());
    } else {
        let rest = nodes.drop_last();
        lemma_nodes(d, base, rest, names);
        let before = nodes_doc(d, rest, names);
        let parts = node_texts(rest, names);
        let (key, n) = nodes.last();
        lemma_opened(before, '{');
        let b = before.lead().push('{');
        let d0 = before.enter('{');
        let p0 = Seq::<Seq<char>>::empty();
        let v1 = number_string(key as int);
        lemma_member(d0, b, p0, "key"@, v1);
        let d1 = d0.key("key"@).value(v1);
        let p1 = p0.push(member("key"@, v1));
        let v2 = quoted(name_or_unknown(names, key));
        lemma_member(d1, b, p1, "name"@, v2);
        let d2 = d1.key("name"@).value(v2);
        let p2 = p1.push(member("name"@, v2));
        let v3 = decimal(n.spans as nat);
        lemma_member(d2, b, p2, "spans"@, v3);
        let d3 = d2.key("spans"@).value(v3);
        let p3 = p2.push(member("spans"@, v3));
        let v4 = decimal(n.errors as nat);
        lemma_member(d3, b, p3, "errors"@, v4);
        let d4 = d3.key("errors"@).value(v4);
        let p4 = p3.push(member("errors"@, v4));
        let v5 = number_string(average_of(n.nanos, n.spans));
        lemma_member(d4, b, p4, "avg_nano"@, v5);
        let d5 = d4.key("avg_nano"@).value(v5);
        let p5 = p4.push(member("avg_nano"@, v5));
        lemma_closed(before, base, parts, d5, p5, '{', '}');
        assert(p5 =~= seq![
            member("key"@, v1),
            member("name"@, v2),
            member("spans"@, v3),
            member("errors"@, v4),
            member("avg_nano"@, v5),
        ]);
        assert(d5.leave('}') == nodes_doc(d, nodes, names));
        assert(parts.push(node_text(key, n, names)) =~= node_texts(nodes, names));
    }
}

proof fn lemma_edges(d: Doc, base: Seq<char>, edges: Seq<(Call, Edge)>)
    requires
        has_parts(d, base, Seq::empty()),
    ensures
        has_parts(edges_doc(d, edges), base, edge_texts(edges)),
    decreases edges.len(),
{
    if edges.len() == 0 {
        assert(edge_texts(edges) =~= Seq::empty());
    } else {
        let rest = edges.drop_last();
        lemma_edges(d, base, rest);
        let before = edges_doc(d, rest);
        let parts = edge_texts(rest);
        let (c, e) = edges.last();
        lemma_opened(before, '{');
        let b = before.lead().push('{');
        let d0 = before.enter('{');
        let p0 = Seq::<Seq<char>>::empty();
        let v1 = if c.from == 0xffff_ffff_ffff_ffffu64 {
            quoted("entry"@)
        } else {
            number_string(c.from as int)
        };
        lemma_member(d0, b, p0, "from"@, v1);
        let d1 = d0.key("from"@).value(v1);
        let p1 = p0.push(member("from"@, v1));
        let v2 = number_string(c.to as int);
        lemma_member(d1, b, p1, "to"@, v2);
        let d2 = d1.key("to"@).value(v2);
        let p2 = p1.push(member("to"@, v2));
        let v3 = decimal(e.calls as nat);
        lemma_member(d2, b, p2, "calls"@, v3);
        let d3 = d2.key("calls"@).value(v3);
        let p3 = p2.push(member("calls"@, v3));
        let v4 = decimal(e.errors as nat);
        lemma_member(d3, b, p3, "errors"@, v4);
        let d4 = d3.key("errors"@).value(v4);
        let p4 = p3.push(member("errors"@, v4));
        let v5 = number_string(average_of(e.nanos, e.calls));
        lemma_member(d4, b, p4, "avg_nano"@, v5);
        let d5 = d4.key("avg_nano"@).value(v5);
        let p5 = p4.push(member("avg_nano"@, v5));
        let v6 = number_string(e.max_nanos as int);
        lemma_member(d5, b, p5, "max_nano"@, v6);
        let d6 = d5.key("max_nano"@).value(v6);
        let p6 = p5.push(member("max_nano"@, v6));
        lemma_closed(before, base, parts, d6, p6, '{', '}');
        assert(p6 =~= seq![
            member("from"@, v1),
            member("to"@, v2),
            member("calls"@, v3),
            member("errors"@, v4),
            member("avg_nano"@, v5),
            member("max_nano"@, v6),
        ]);
        assert(d6.leave('}') == edges_doc(d, edges));
        assert(parts.push(edge_text(c, e)) =~= edge_texts(edges));
    }
}

/// What a document that is one object comes to.
pub proof fn lemma_whole(inner: Doc, inside: Seq<Seq<char>>, open: char, close: char)
    requires
        has_parts(inner, Doc::empty().lead().push(open), inside),
    ensures
        inner.leave(close).text == seq![open] + joined(inside) + seq![close],
{
    assert(inner.leave(close).text =~= seq![open] + joined(inside) + seq![close]);
}

/// A map is written as its nodes, its edges and how many spans were not
/// resolved; each node and each edge with its own numbers under their names.
pub proof fn law_a_map_is_written_out(s: MapState)
    ensures
        map_doc(s).text == object(
            seq![
                member(
                    "nodes"@,
                    array(
                        Seq::new(
                            s.nodes.len(),
                            |i: int| node_text(s.nodes[i].0, s.nodes[i].1, s.names),
                        ),
                    ),
                ),
                member(
                    "edges"@,
                    array(
                        Seq::new(
                            s.edges.len(),
                            |i: int| edge_text(s.edges[i].0, s.edges[i].1),
                        ),
                    ),
                ),
                member("unresolved"@, decimal(s.unresolved as nat)),
            ],
        ),
{
    let d0 = Doc::empty().enter('{');
    let b = Doc::empty().lead().push('{');
    let p0 = Seq::<Seq<char>>::empty();
    lemma_opened(Doc::empty(), '{');
    let k1 = d0.key("nodes"@);
    lemma_opened(k1, '[');
    lemma_nodes(k1.enter('['), k1.lead().push('['), s.nodes, s.names);
    let i1 = nodes_doc(k1.enter('['), s.nodes, s.names);
    let t1 = node_texts(s.nodes, s.names);
    lemma_member_closed(d0, b, p0, "nodes"@, i1, t1, '[', ']');
    let d1 = i1.leave(']');
    let p1 = p0.push(member("nodes"@, array(t1)));
    let k2 = d1.key("edges"@);
    lemma_opened(k2, '[');
    lemma_edges(k2.enter('['), k2.lead().push('['), s.edges);
    let i2 = edges_doc(k2.enter('['), s.edges);
    let t2 = edge_texts(s.edges);
    lemma_member_closed(d1, b, p1, "edges"@, i2, t2, '[', ']');
    let d2 = i2.leave(']');
    let p2 = p1.push(member("edges"@, array(t2)));
    let v3 = decimal(s.unresolved as nat);
    lemma_member(d2, b, p2, "unresolved"@, v3);
    let d3 = d2.key("unresolved"@).value(v3);
    let p3 = p2.push(member("unresolved"@, v3));
    lemma_whole(d3, p3, '{', '}');
    let nodes = Seq::new(
        s.nodes.len(),
        |i: int| node_text(s.nodes[i].0, s.nodes[i].1, s.names),
    );
    let edges = Seq::new(s.edges.len(), |i: int| edge_text(s.edges[i].0, s.edges[i].1));
    assert(nodes =~= t1);
    assert(edges =~= t2);
    assert(p3 =~= seq![
        member("nodes"@, array(nodes)),
        member("edges"@, array(edges)),
        member("unresolved"@, v3),
    ]);
    assert(map_doc(s) == d3.leave('}'));
}

// ---------------------------------------------------------------------------
// Frames.

/// An entity of a frame.
pub open spec fn entity_text(key: u64, names: Map<u64, Seq<char>>) -> Seq<char> {
    object(
        seq![
            member("key"@, number_string(key as int)),
            member("name"@, quoted(name_or_unknown(names, key))),
        ],
    )
}

spec fn entity_texts(keys: Seq<u64>, names: Map<u64, Seq<char>>) -> Seq<Seq<char>> {
    Seq::new(keys.len(), |i: int| entity_text(keys[i], names))
}

spec fn trace_texts(ids: Seq<Seq<u8>>) -> Seq<Seq<char>> {
    Seq::new(ids.len(), |i: int| hex_string(ids[i]))
}

proof fn lemma_entities(d: Doc, base: Seq<char>, keys: Seq<u64>, names: Map<u64, Seq<char>>)
    requires
        has_parts(d, base, Seq::empty()),
    ensures
        has_parts(entities_doc(d, keys, names), base, entity_texts(keys, names)),
    decreases keys.len(),
{
    if keys.len() == 0 {
        assert(entity_texts(keys, names) =~= Seq::empty());
    } else {
        let rest = keys.drop_last();
        lemma_entities(d, base, rest, names);
        let before = entities_doc(d, rest, names);
        let parts = entity_texts(rest, names);
        let key = keys.last();
        lemma_opened(before, '{');
        let b = before.lead().push('{');
        let d0 = before.enter('{');
        let p0 = Seq::<Seq<char>>::empty();
        let v1 = number_string(key as int);
        lemma_member(d0, b, p0, "key"@, v1);
        let d1 = d0.key("key"@).value(v1);
        let p1 = p0.push(member("key"@, v1));
        let v2 = quoted(name_or_unknown(names, key));
        lemma_member(d1, b, p1, "name"@, v2);
        let d2 = d1.key("name"@).value(v2);
        let p2 = p1.push(member("name"@, v2));
        lemma_closed(before, base, parts, d2, p2, '{', '}');
        assert(p2 =~= seq![member("key"@, v1), member("name"@, v2)]);
        assert(d2.leave('}') == entities_doc(d, keys, names));
        assert(parts.push(entity_text(key, names)) =~= entity_texts(keys, names));
    }
}

proof fn lemma_traces(d: Doc, base: Seq<char>, ids: Seq<Seq<u8>>)
    requires
        has_parts(d, base, Seq::empty()),
    ensures
        has_parts(traces_doc(d, ids), base, trace_texts(ids)),
    decreases ids.len(),
{
    if ids.len() == 0 {
        assert(trace_texts(ids) =~= Seq::empty());
    } else {
        let rest = ids.drop_last();
        lemma_traces(d, base, rest);
        let before = traces_doc(d, rest);
        lemma_value(before, base, trace_texts(rest), hex_string(ids.last()));
        assert(trace_texts(rest).push(hex_string(ids.last())) =~= trace_texts(ids));
    }
}

/// A frame is written as its window, its entities by key and name, its traces,
/// and whether something was dropped from it.
pub proof fn law_a_frame_is_written_out(f: Region, names: Map<u64, Seq<char>>)
    ensures
        frame_doc(Doc::empty(), f, names).text == object(
            seq![
                member("from"@, number_string(f.from as int)),
                member("to"@, number_string(f.to as int)),
                member(
                    "entities"@,
                    array(Seq::new(f.entities.len(), |i: int| entity_text(f.entities[i], names))),
                ),
                member(
                    "traces"@,
                    array(Seq::new(f.traces.len(), |i: int| hex_string(f.traces[i]))),
                ),
                member("truncated"@, truth(f.truncated)),
            ],
        ),
{
    let d0 = Doc::empty().enter('{');
    let b = Doc::empty().lead().push('{');
    let p0 = Seq::<Seq<char>>::empty();
    lemma_opened(Doc::empty(), '{');
    let v1 = number_string(f.from as int);
    lemma_member(d0, b, p0, "from"@, v1);
    let d1 = d0.key("from"@).value(v1);
    let p1 = p0.push(member("from"@, v1));
    let v2 = number_string(f.to as int);
    lemma_member(d1, b, p1, "to"@, v2);
    let d2 = d1.key("to"@).value(v2);
    let p2 = p1.push(member("to"@, v2));
    let k3 = d2.key("entities"@);
    lemma_opened(k3, '[');
    lemma_entities(k3.enter('['), k3.lead().push('['), f.entities, names);
    let i3 = entities_doc(k3.enter('['), f.entities, names);
    let t3 = entity_texts(f.entities, names);
    lemma_member_closed(d2, b, p2, "entities"@, i3, t3, '[', ']');
    let d3 = i3.leave(']');
    let p3 = p2.push(member("entities"@, array(t3)));
    let k4 = d3.key("traces"@);
    lemma_opened(k4, '[');
    lemma_traces(k4.enter('['), k4.lead().push('['), f.traces);
    let i4 = traces_doc(k4.enter('['), f.traces);
    let t4 = trace_texts(f.traces);
    lemma_member_closed(d3, b, p3, "traces"@, i4, t4, '[', ']');
    let d4 = i4.leave(']');
    let p4 = p3.push(member("traces"@, array(t4)));
    let v5 = truth(f.truncated);
    lemma_member(d4, b, p4, "truncated"@, v5);
    let d5 = d4.key("truncated"@).value(v5);
    let p5 = p4.push(member("truncated"@, v5));
    lemma_whole(d5, p5, '{', '}');
    let entities = Seq::new(f.entities.len(), |i: int| entity_text(f.entities[i], names));
    let traces = Seq::new(f.traces.len(), |i: int| hex_string(f.traces[i]));
    assert(entities =~= t3);
    assert(traces =~= t4);
    assert(p5 =~= seq![
        member("from"@, v1),
        member("to"@, v2),
        member("entities"@, array(entities)),
        member("traces"@, array(traces)),
        member("truncated"@, v5),
    ]);
    assert(frame_doc(Doc::empty(), f, names) == d5.leave('}'));
}

// ---------------------------------------------------------------------------
// Listings.

/// An entity of a listing.
pub open spec fn listed_text(e: Entity) -> Seq<char> {
    object(
        seq![
            member("key"@, number_string(e.key as int)),
            member("name"@, quoted(e.name@)),
            member("blocks"@, decimal(e.blocks as nat)),
        ],
    )
}

spec fn listed_texts(v: Seq<Entity>) -> Seq<Seq<char>> {
    Seq::new(v.len(), |i: int| listed_text(v[i]))
}

proof fn lemma_listing(d: Doc, base: Seq<char>, v: Seq<Entity>)
    requires
        has_parts(d, base, Seq::empty()),
    ensures
        has_parts(listing_doc(d, v), base, listed_texts(v)),
    decreases v.len(),
{
    if v.len() == 0 {
        assert(listed_texts(v) =~= Seq::empty());
    } else {
        let rest = v.drop_last();
        lemma_listing(d, base, rest);
        let before = listing_doc(d, rest);
        let parts = listed_texts(rest);
        let e = v.last();
        lemma_opened(before, '{');
        let b = before.lead().push('{');
        let d0 = before.enter('{');
        let p0 = Seq::<Seq<char>>::empty();
        let v1 = number_string(e.key as int);
        lemma_member(d0, b, p0, "key"@, v1);
        let d1 = d0.key("key"@).value(v1);
        let p1 = p0.push(member("key"@, v1));
        let v2 = quoted(e.name@);
        lemma_member(d1, b, p1, "name"@, v2);
        let d2 = d1.key("name"@).value(v2);
        let p2 = p1.push(member("name"@, v2));
        let v3 = decimal(e.blocks as nat);
        lemma_member(d2, b, p2, "blocks"@, v3);
        let d3 = d2.key("blocks"@).value(v3);
        let p3 = p2.push(member("blocks"@, v3));
        lemma_closed(before, base, parts, d3, p3, '{', '}');
        assert(p3 =~= seq![member("key"@, v1), member("name"@, v2), member("blocks"@, v3)]);
        assert(d3.leave('}') == listing_doc(d, v));
        assert(parts.push(listed_text(e)) =~= listed_texts(v));
    }
}

/// A listing is written as its entities, each with its key, its name and how
/// many blocks have it.
pub proof fn law_a_listing_is_written_out(v: Seq<Entity>)
    ensures
        listing_doc(Doc::empty().enter('['), v).leave(']').text == array(
            Seq::new(v.len(), |i: int| listed_text(v[i])),
        ),
{
    lemma_opened(Doc::empty(), '[');
    lemma_listing(Doc::empty().enter('['), Doc::empty().lead().push('['), v);
    let inner = listing_doc(Doc::empty().enter('['), v);
    lemma_whole(inner, listed_texts(v), '[', ']');
    assert(Seq::new(v.len(), |i: int| listed_text(v[i])) =~= listed_texts(v));
}

// ---------------------------------------------------------------------------
// Rows.

/// A cell, as it is written: numbers of 64 bits as strings, narrower ones bare,
/// texts quoted, bytes in hexadecimal.
pub open spec fn cell_text(c: Column, i: int, floats: Floats) -> Seq<char> {
    match c.data {
        Data::Time(v) => number_string(v@[i] as int),
        Data::I64(v) => number_string(v@[i] as int),
        Data::U64(v) => number_string(v@[i] as int),
        Data::I32(v) => signed(v@[i] as int),
        Data::U32(v) => decimal(v@[i] as nat),
        Data::U16(v) => decimal(v@[i] as nat),
        Data::U8(v) => decimal(v@[i] as nat),
        Data::Double(v) => match floats.text_of(v@[i]) {
            Some(t) => t,
            None => "null"@,
        },
        Data::Bool(v) => truth(v@[i]),
        Data::Text(v) => quoted(v@[i]@),
        Data::Binary(v) => hex_string(v@[i]@),
        Data::Fixed(v) => hex_string(v@[i]@),
        Data::Dict16(k, t) => quoted(t@[k@[i] as int]@),
        Data::Dict32(k, t) => quoted(t@[k@[i] as int]@),
        _ => "null"@,
    }
}

/// A column of a row is left out where it is null, and where it numbers rows
/// within the block; a body that is no text is written as the value it encodes.
pub open spec fn is_shown(f: Field, row: int) -> bool {
    &&& f.column.holds(row)
    &&& f.name@ != "id"@
    &&& f.name@ != "parent_id"@
    &&& f.name@ != "resource_id"@
    &&& f.name@ != "scope_id"@
}

/// A column whose cells are single values.
pub open spec fn is_flat(f: Field, row: int) -> bool {
    &&& !(f.column.data is List)
    &&& f.name@ != "body_ser"@
    &&& f.column.data matches Data::Dict16(k, t) ==> k@[row] < t@.len()
    &&& f.column.data matches Data::Dict32(k, t) ==> k@[row] < t@.len()
}

/// The members that the first `n` columns of a row make.
pub open spec fn field_texts(t: Table, row: int, n: nat, floats: Floats) -> Seq<Seq<char>>
    decreases n,
{
    if n == 0 {
        Seq::empty()
    } else if is_shown(t.fields@[n - 1], row) {
        field_texts(t, row, (n - 1) as nat, floats).push(
            member(t.fields@[n - 1].name@, cell_text(t.fields@[n - 1].column, row, floats)),
        )
    } else {
        field_texts(t, row, (n - 1) as nat, floats)
    }
}

pub proof fn lemma_fields(d: Doc, base: Seq<char>, t: Table, row: int, n: nat, floats: Floats)
    requires
        has_parts(d, base, Seq::empty()),
        n <= t.fields@.len(),
        forall|i: int|
            0 <= i < n && is_shown(#[trigger] t.fields@[i], row) ==> is_flat(t.fields@[i], row),
    ensures
        has_parts(fields_doc(d, t, row, n, floats), base, field_texts(t, row, n, floats)),
    decreases n,
{
    if n > 0 {
        lemma_fields(d, base, t, row, (n - 1) as nat, floats);
        let f = t.fields@[n - 1];
        let before = fields_doc(d, t, row, (n - 1) as nat, floats);
        if is_shown(f, row) {
            lemma_member(
                before,
                base,
                field_texts(t, row, (n - 1) as nat, floats),
                f.name@,
                cell_text(f.column, row, floats),
            );
        }
    }
}

/// A row is written as an object of its columns: those that are there and number
/// nothing, in order, each under its name.
pub proof fn law_a_row_is_written_out(t: Table, row: int, floats: Floats)
    requires
        forall|i: int|
            0 <= i < t.fields@.len() && is_shown(#[trigger] t.fields@[i], row) ==> is_flat(
                t.fields@[i],
                row,
            ),
    ensures
        fields_doc(Doc::empty().enter('{'), t, row, t.fields@.len(), floats).leave('}').text
            == object(field_texts(t, row, t.fields@.len(), floats)),
{
    lemma_opened(Doc::empty(), '{');
    lemma_fields(
        Doc::empty().enter('{'),
        Doc::empty().lead().push('{'),
        t,
        row,
        t.fields@.len(),
        floats,
    );
    lemma_whole(
        fields_doc(Doc::empty().enter('{'), t, row, t.fields@.len(), floats),
        field_texts(t, row, t.fields@.len(), floats),
        '{',
        '}',
    );
}

// ---------------------------------------------------------------------------
// Attribute values.

/// A value, as it is written.
pub open spec fn value_text(v: Val, floats: Floats) -> Seq<char>
    decreases v,
{
    match v {
        Val::Empty => "null"@,
        Val::Str(s) => quoted(s),
        Val::Int(i) => number_string(i as int),
        Val::Double(b) => match floats.text_of(b) {
            Some(t) => t,
            None => "null"@,
        },
        Val::Bool(b) => truth(b),
        Val::Bytes(b) => hex_string(b),
        Val::Array(vs) => array(value_texts(vs, floats)),
        Val::Kvlist(ps) => object(member_texts(ps, floats)),
    }
}

/// The texts of values, each written out.
pub open spec fn value_texts(vs: Seq<Val>, floats: Floats) -> Seq<Seq<char>>
    decreases vs,
{
    if vs.len() == 0 {
        Seq::empty()
    } else {
        value_texts(vs.drop_last(), floats).push(value_text(vs.last(), floats))
    }
}

/// The texts of pairs, each a key and its value written out.
pub open spec fn member_texts(ps: Seq<Pair>, floats: Floats) -> Seq<Seq<char>>
    decreases ps,
{
    if ps.len() == 0 {
        Seq::empty()
    } else {
        member_texts(ps.drop_last(), floats).push(
            member(
                ps.last().key,
                match ps.last().value {
                    Some(v) => value_text(v, floats),
                    None => "null"@,
                },
            ),
        )
    }
}

pub proof fn lemma_any(d: Doc, v: Val, floats: Floats)
    ensures
        any_doc(d, v, floats) == d.value(value_text(v, floats)),
    decreases v,
{
    match v {
        Val::Array(vs) => {
            lemma_opened(d, '[');
            let inner = d.enter('[');
            lemma_items(inner, d.lead().push('['), vs, floats);
            let end = items_doc(inner, vs, floats).leave(']');
            assert(end.text =~= d.lead() + array(value_texts(vs, floats)));
        },
        Val::Kvlist(ps) => {
            lemma_opened(d, '{');
            let inner = d.enter('{');
            lemma_pairs(inner, d.lead().push('{'), ps, floats);
            let end = members_doc(inner, ps, floats).leave('}');
            assert(end.text =~= d.lead() + object(member_texts(ps, floats)));
        },
        _ => {},
    }
}

proof fn lemma_items(d: Doc, base: Seq<char>, vs: Seq<Val>, floats: Floats)
    requires
        has_parts(d, base, Seq::empty()),
    ensures
        has_parts(items_doc(d, vs, floats), base, value_texts(vs, floats)),
    decreases vs,
{
    if vs.len() > 0 {
        let rest = vs.drop_last();
        lemma_items(d, base, rest, floats);
        lemma_any(items_doc(d, rest, floats), vs.last(), floats);
        lemma_value(
            items_doc(d, rest, floats),
            base,
            value_texts(rest, floats),
            value_text(vs.last(), floats),
        );
    }
}

proof fn lemma_pairs(d: Doc, base: Seq<char>, ps: Seq<Pair>, floats: Floats)
    requires
        has_parts(d, base, Seq::empty()),
    ensures
        has_parts(members_doc(d, ps, floats), base, member_texts(ps, floats)),
    decreases ps,
{
    if ps.len() > 0 {
        let rest = ps.drop_last();
        lemma_pairs(d, base, rest, floats);
        let before = members_doc(d, rest, floats);
        let k = ps.last().key;
        let text = match ps.last().value {
            Some(v) => value_text(v, floats),
            None => "null"@,
        };
        if let Some(v) = ps.last().value {
            lemma_any(before.key(k), v, floats);
        }
        lemma_member(before, base, member_texts(rest, floats), k, text);
    }
}

/// A value is written as what it is: numbers of 64 bits as strings, bytes in
/// hexadecimal, lists as arrays and maps as objects, and nothing as `null`.
pub proof fn law_a_value_is_written_out(d: Doc, v: Val, floats: Floats)
    ensures
        any_doc(d, v, floats) == d.value(value_text(v, floats)),
{
    lemma_any(d, v, floats);
}

/// An attribute of a table is written as the value that came in, whatever column
/// holds it.
pub proof fn law_an_attribute_is_written_out(
    d: Doc,
    t: Table,
    rows: Seq<AttrRow>,
    i: int,
    floats: Floats,
)
    requires
        attrs_table_of(t, rows),
        0 <= i < rows.len(),
        fits(rows[i].value, DEPTH as nat),
        any_bytes(rows[i].value).len() <= u64::MAX,
    ensures
        attr_doc(d, t, i, floats) == d.value(value_text(rows[i].value, floats)),
{
    assert(attr_row_is(t, i, rows[i]));
    match rows[i].value {
        Val::Array(_) => {
            law_any_round_trip(rows[i].value);
            lemma_any(d, rows[i].value, floats);
        },
        Val::Kvlist(_) => {
            law_any_round_trip(rows[i].value);
            lemma_any(d, rows[i].value, floats);
        },
        _ => {},
    }
}

/// The last attribute of a key that a table has under a parent.
pub open spec fn last_under(
    a: Option<crate::scan::Attrs>,
    parent: Option<u32>,
    key: Seq<char>,
) -> Option<At> {
    match (a, parent) {
        (Some(t), Some(p)) => last_with_key(attrs_upto(*t.rows, p, t.rows.rows as nat), key),
        _ => None,
    }
}

/// The attribute that a row shows under a key is its own; where it has none,
/// that of its scope; where that has none either, that of its resource.
pub proof fn law_a_row_shows_the_nearest_attribute(blk: Block, row: u32, key: Seq<char>)
    ensures
        keys_ascend(blk.row_attrs(row)),
        ({
            let own = last_under(blk.attrs, Some(row), key);
            let scope = last_under(
                blk.scope_attrs,
                fk_of(*blk.root, row as int, "scope_id"@),
                key,
            );
            let resource = last_under(
                blk.resource_attrs,
                fk_of(*blk.root, row as int, "resource_id"@),
                key,
            );
            with_key(blk.row_attrs(row), key) == if own is Some {
                own
            } else if scope is Some {
                scope
            } else {
                resource
            }
        }),
{
    let none = Seq::<At>::empty();
    lemma_level(none, blk.resource_attrs, fk_of(*blk.root, row as int, "resource_id"@), key);
    let one = level_put(none, blk.resource_attrs, fk_of(*blk.root, row as int, "resource_id"@));
    lemma_level(one, blk.scope_attrs, fk_of(*blk.root, row as int, "scope_id"@), key);
    let two = level_put(one, blk.scope_attrs, fk_of(*blk.root, row as int, "scope_id"@));
    lemma_level(two, blk.attrs, Some(row), key);
}

proof fn lemma_level(
    s: Seq<At>,
    a: Option<crate::scan::Attrs>,
    parent: Option<u32>,
    key: Seq<char>,
)
    requires
        keys_ascend(s),
    ensures
        keys_ascend(level_put(s, a, parent)),
        with_key(level_put(s, a, parent), key) == if last_under(a, parent, key) is Some {
            last_under(a, parent, key)
        } else {
            with_key(s, key)
        },
{
    if let (Some(t), Some(p)) = (a, parent) {
        law_the_most_specific_level_wins(s, attrs_upto(*t.rows, p, t.rows.rows as nat), key);
    }
}

} // verus!
