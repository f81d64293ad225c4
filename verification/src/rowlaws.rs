//! How a row of a block is written out: its columns, its attributes, and what
//! hangs off it.

use crate::doclaws::{
    array, field_texts, has_parts, is_flat, is_shown, lemma_any, lemma_closed, lemma_fields,
    lemma_member, lemma_member_closed, lemma_opened, lemma_whole, member, object, value_text,
};
use crate::emit::{
    attr_doc, attrs_doc, child_doc, child_id, children_doc, encoded_doc, field_doc, fields_doc,
    hits_doc, level_put, At,
};
use crate::float::Floats;
use crate::json::Doc;
use crate::otlp::Val;
use crate::proto::{any_bytes, decoded, fits, law_any_round_trip, DEPTH};
use crate::scan::{children_of, Attrs, Block, Child};
use crate::search::{block_of, page_doc, Hit, Stored};
use crate::source::Src;
use crate::table::{Data, Field, Table};
use vstd::prelude::*;

verus! {

/// An attribute as it is written on its own.
pub open spec fn at_text(e: At, floats: Floats) -> Seq<char> {
    attr_doc(Doc::empty(), e.table, e.row, floats).text
}

/// Attributes as members of an object.
pub open spec fn at_texts(es: Seq<At>, floats: Floats) -> Seq<Seq<char>> {
    Seq::new(es.len(), |i: int| member(es[i].key(), at_text(es[i], floats)))
}

proof fn lemma_value_alone(d: Doc, v: Seq<char>)
    ensures
        d.value(Doc::empty().value(v).text) == d.value(v),
{
    assert(Doc::empty().value(v).text =~= v);
}

proof fn lemma_encoded(d: Doc, b: Seq<u8>, floats: Floats)
    ensures
        encoded_doc(d, b, floats) == d.value(encoded_doc(Doc::empty(), b, floats).text),
{
    match decoded(b) {
        Some(v) => {
            lemma_any(d, v, floats);
            lemma_any(Doc::empty(), v, floats);
            lemma_value_alone(d, value_text(v, floats));
        },
        None => {
            lemma_value_alone(d, "null"@);
        },
    }
}

proof fn lemma_at(d: Doc, e: At, floats: Floats)
    ensures
        attr_doc(d, e.table, e.row, floats) == d.value(at_text(e, floats)),
{
    let a = e.table;
    let i = e.row;
    lemma_value_alone(d, "null"@);
    if let Data::Dict32(k, t) = a.fields@[3].column.data {
        lemma_value_alone(d, crate::json::quoted(t@[k@[i] as int]@));
    }
    if let Data::I64(v) = a.fields@[4].column.data {
        lemma_value_alone(d, crate::doclaws::number_string(v@[i] as int));
    }
    if let Data::Double(v) = a.fields@[5].column.data {
        if let Some(t) = floats.text_of(v@[i]) {
            lemma_value_alone(d, t);
        }
    }
    if let Data::Bool(v) = a.fields@[6].column.data {
        lemma_value_alone(d, crate::doclaws::truth(v@[i]));
    }
    if let Data::Binary(v) = a.fields@[7].column.data {
        lemma_value_alone(d, crate::doclaws::hex_string(v@[i]@));
    }
    if let Data::Binary(v) = a.fields@[8].column.data {
        lemma_encoded(d, v@[i]@, floats);
    }
}

proof fn lemma_ats(d: Doc, base: Seq<char>, es: Seq<At>, floats: Floats)
    requires
        has_parts(d, base, Seq::empty()),
    ensures
        has_parts(attrs_doc(d, es, floats), base, at_texts(es, floats)),
    decreases es.len(),
{
    if es.len() == 0 {
        assert(at_texts(es, floats) =~= Seq::empty());
    } else {
        let rest = es.drop_last();
        let e = es.last();
        lemma_ats(d, base, rest, floats);
        let before = attrs_doc(d, rest, floats);
        lemma_at(before.key(e.key()), e, floats);
        lemma_member(before, base, at_texts(rest, floats), e.key(), at_text(e, floats));
        assert(at_texts(rest, floats).push(member(e.key(), at_text(e, floats))) =~= at_texts(
            es,
            floats,
        ));
    }
}

/// Every column that a row shows is of single values.
pub open spec fn is_flat_row(t: Table, row: int) -> bool {
    forall|i: int|
        0 <= i < t.fields@.len() && is_shown(#[trigger] t.fields@[i], row) ==> is_flat(
            t.fields@[i],
            row,
        )
}

/// A body that was no text is written as the value that was sent, and as `null`
/// where its bytes are no value.
pub proof fn law_a_body_is_written_as_its_value(d: Doc, f: Field, row: int, body: Val, floats: Floats)
    requires
        f.name@ == "body_ser"@,
        f.column.holds(row),
        f.column.data matches Data::Binary(v) && v@[row]@ == any_bytes(body),
        fits(body, DEPTH as nat),
        any_bytes(body).len() <= u64::MAX,
    ensures
        field_doc(d, f, row, floats) == d.key("body_ser"@).value(value_text(body, floats)),
{
    reveal_strlit("body_ser");
    reveal_strlit("id");
    reveal_strlit("parent_id");
    reveal_strlit("resource_id");
    reveal_strlit("scope_id");
    assert("body_ser"@.len() == 8 && "id"@.len() == 2 && "parent_id"@.len() == 9);
    assert("resource_id"@.len() == 11 && "scope_id"@.len() == 8);
    assert("body_ser"@[0] == 'b' && "scope_id"@[0] == 's');
    law_any_round_trip(body);
    lemma_any(d.key("body_ser"@), body, floats);
}

/// The number of an event or a link within its block.
pub open spec fn number_of(t: Table, row: int) -> Option<u32> {
    match t.named("id"@) {
        Some(c) => match c.data {
            Data::U32(v) => Some(v@[row]),
            _ => None,
        },
        None => None,
    }
}

/// The members that the columns of a row and its attributes make.
pub open spec fn row_members(t: Table, row: int, es: Seq<At>, floats: Floats) -> Seq<Seq<char>> {
    field_texts(t, row, t.fields@.len(), floats).push(
        member("attributes"@, object(at_texts(es, floats))),
    )
}

proof fn lemma_row_members(d: Doc, base: Seq<char>, t: Table, row: int, es: Seq<At>, floats: Floats)
    requires
        has_parts(d, base, Seq::empty()),
        is_flat_row(t, row),
    ensures
        has_parts(
            attrs_doc(
                fields_doc(d, t, row, t.fields@.len(), floats).key("attributes"@).enter('{'),
                es,
                floats,
            ).leave('}'),
            base,
            row_members(t, row, es, floats),
        ),
{
    lemma_fields(d, base, t, row, t.fields@.len(), floats);
    let f = fields_doc(d, t, row, t.fields@.len(), floats);
    let k = f.key("attributes"@);
    lemma_opened(k, '{');
    lemma_ats(k.enter('{'), k.lead().push('{'), es, floats);
    lemma_member_closed(
        f,
        base,
        field_texts(t, row, t.fields@.len(), floats),
        "attributes"@,
        attrs_doc(k.enter('{'), es, floats),
        at_texts(es, floats),
        '{',
        '}',
    );
}

/// An event or a link as it is written: its columns, and its own attributes.
pub open spec fn child_text(t: Table, attrs: Option<Attrs>, r: int, floats: Floats) -> Seq<char> {
    object(row_members(t, r, level_put(Seq::empty(), attrs, number_of(t, r)), floats))
}

/// Several of them.
pub open spec fn child_texts(t: Table, attrs: Option<Attrs>, hits: Seq<u32>, floats: Floats) -> Seq<
    Seq<char>,
> {
    Seq::new(hits.len(), |i: int| child_text(t, attrs, hits[i] as int, floats))
}

proof fn lemma_hits(
    d: Doc,
    base: Seq<char>,
    t: Table,
    attrs: Option<Attrs>,
    hits: Seq<u32>,
    floats: Floats,
)
    requires
        has_parts(d, base, Seq::empty()),
        forall|r: int| #[trigger] is_flat_row(t, r),
    ensures
        has_parts(hits_doc(d, t, attrs, hits, floats), base, child_texts(t, attrs, hits, floats)),
    decreases hits.len(),
{
    if hits.len() == 0 {
        assert(child_texts(t, attrs, hits, floats) =~= Seq::empty());
    } else {
        let rest = hits.drop_last();
        let r = hits.last() as int;
        lemma_hits(d, base, t, attrs, rest, floats);
        let before = hits_doc(d, t, attrs, rest, floats);
        let parts = child_texts(t, attrs, rest, floats);
        let es = level_put(Seq::empty(), attrs, number_of(t, r));
        assert(number_of(t, r) == child_id(t, r));
        lemma_opened(before, '{');
        assert(is_flat_row(t, r));
        lemma_row_members(before.enter('{'), before.lead().push('{'), t, r, es, floats);
        let inner = attrs_doc(
            fields_doc(before.enter('{'), t, r, t.fields@.len(), floats).key("attributes"@).enter(
                '{',
            ),
            es,
            floats,
        ).leave('}');
        lemma_closed(before, base, parts, inner, row_members(t, r, es, floats), '{', '}');
        assert(inner.leave('}') == child_doc(before, t, attrs, r, floats));
        assert(parts.push(child_text(t, attrs, r, floats)) =~= child_texts(t, attrs, hits, floats));
    }
}

/// What hangs off a row, as members of its object: for each kind of which there
/// is any, an array under the kind's name.
pub open spec fn kind_texts(cs: Seq<Child>, row: u32, floats: Floats) -> Seq<Seq<char>>
    decreases cs.len(),
{
    if cs.len() == 0 {
        Seq::empty()
    } else {
        let c = cs.last();
        let before = kind_texts(cs.drop_last(), row, floats);
        let hits = children_of(*c.rows, row);
        if hits.len() == 0 {
            before
        } else {
            before.push(member(c.label@, array(child_texts(*c.rows, c.attrs, hits, floats))))
        }
    }
}

proof fn lemma_kinds(
    blk: Block,
    d: Doc,
    base: Seq<char>,
    parts: Seq<Seq<char>>,
    row: u32,
    n: nat,
    floats: Floats,
)
    requires
        has_parts(d, base, parts),
        n <= blk.children@.len(),
        forall|k: int, r: int|
            0 <= k < blk.children@.len() ==> #[trigger] is_flat_row(*blk.children@[k].rows, r),
    ensures
        has_parts(
            blk.kinds_doc(d, row, n, floats),
            base,
            parts + kind_texts(blk.children@.take(n as int), row, floats),
        ),
    decreases n,
{
    let cs = blk.children@.take(n as int);
    if n == 0 {
        assert(parts + kind_texts(cs, row, floats) =~= parts);
    } else {
        lemma_kinds(blk, d, base, parts, row, (n - 1) as nat, floats);
        let before = blk.kinds_doc(d, row, (n - 1) as nat, floats);
        let c = blk.children@[n - 1];
        assert(cs.drop_last() =~= blk.children@.take(n - 1));
        assert(cs.last() == c);
        let was = parts + kind_texts(cs.drop_last(), row, floats);
        let hits = children_of(*c.rows, row);
        if hits.len() > 0 {
            let k = before.key(c.label@);
            lemma_opened(k, '[');
            assert forall|r: int| #[trigger] is_flat_row(*c.rows, r) by {
                assert(is_flat_row(*blk.children@[n - 1].rows, r));
            }
            lemma_hits(k.enter('['), k.lead().push('['), *c.rows, c.attrs, hits, floats);
            let texts = child_texts(*c.rows, c.attrs, hits, floats);
            lemma_member_closed(
                before,
                base,
                was,
                c.label@,
                hits_doc(k.enter('['), *c.rows, c.attrs, hits, floats),
                texts,
                '[',
                ']',
            );
            assert(was.push(member(c.label@, array(texts))) =~= parts + kind_texts(cs, row, floats));
        }
        assert(blk.kinds_doc(d, row, n, floats) == children_doc(before, c, row, floats));
    }
}

/// The members of the object that a row is written as.
pub open spec fn whole_members(blk: Block, row: u32, floats: Floats) -> Seq<Seq<char>> {
    row_members(*blk.root, row as int, blk.row_attrs(row), floats) + kind_texts(
        blk.children@,
        row,
        floats,
    )
}

/// Every column that the row and what hangs off it show is of single values.
pub open spec fn is_flat_whole(blk: Block, row: u32) -> bool {
    &&& is_flat_row(*blk.root, row as int)
    &&& forall|k: int, r: int|
        0 <= k < blk.children@.len() ==> #[trigger] is_flat_row(*blk.children@[k].rows, r)
}

proof fn lemma_inside(blk: Block, d: Doc, base: Seq<char>, row: u32, floats: Floats) -> (end: Doc)
    requires
        has_parts(d.enter('{'), base, Seq::empty()),
        is_flat_whole(blk, row),
    ensures
        has_parts(end, base, whole_members(blk, row, floats)),
        blk.row_doc(d, row, floats) == end.leave('}'),
{
    let es = blk.row_attrs(row);
    let t = *blk.root;
    let parts = row_members(t, row as int, es, floats);
    lemma_row_members(d.enter('{'), base, t, row as int, es, floats);
    let mid = attrs_doc(
        fields_doc(d.enter('{'), t, row as int, t.fields@.len(), floats).key("attributes"@).enter(
            '{',
        ),
        es,
        floats,
    ).leave('}');
    lemma_kinds(blk, mid, base, parts, row, blk.children@.len(), floats);
    assert(blk.children@.take(blk.children@.len() as int) =~= blk.children@);
    blk.kinds_doc(mid, row, blk.children@.len(), floats)
}

/// A row of a block is written as one object: its columns, the attributes it
/// shows under `attributes`, and what hangs off it, each kind under its name and
/// each thing as an object of its columns and its own attributes.
pub proof fn law_a_row_is_written_whole(blk: Block, row: u32, floats: Floats)
    requires
        is_flat_whole(blk, row),
    ensures
        blk.row_doc(Doc::empty(), row, floats).text == object(whole_members(blk, row, floats)),
{
    lemma_opened(Doc::empty(), '{');
    let end = lemma_inside(blk, Doc::empty(), Doc::empty().lead().push('{'), row, floats);
    lemma_whole(end, whole_members(blk, row, floats), '{', '}');
}

/// The rows of a page, each as it is written.
pub open spec fn page_texts(
    page: Seq<Hit>,
    refs: Seq<Src>,
    stored: Seq<Stored>,
    opened: Seq<Option<Block>>,
    floats: Floats,
) -> Seq<Seq<char>> {
    Seq::new(
        page.len(),
        |i: int|
            object(
                whole_members(
                    block_of(refs[page[i].block as int], stored, opened)->0,
                    page[i].at.row,
                    floats,
                ),
            ),
    )
}

/// Every row of a page is held by a block that is there, and shows columns of
/// single values.
pub open spec fn is_flat_page(
    page: Seq<Hit>,
    refs: Seq<Src>,
    stored: Seq<Stored>,
    opened: Seq<Option<Block>>,
) -> bool {
    forall|i: int|
        0 <= i < page.len() ==> (block_of(
            refs[(#[trigger] page[i]).block as int],
            stored,
            opened,
        ) matches Some(b) && is_flat_whole(b, page[i].at.row))
}

proof fn lemma_page_parts(
    d: Doc,
    base: Seq<char>,
    page: Seq<Hit>,
    refs: Seq<Src>,
    stored: Seq<Stored>,
    opened: Seq<Option<Block>>,
    floats: Floats,
)
    requires
        has_parts(d, base, Seq::empty()),
        is_flat_page(page, refs, stored, opened),
    ensures
        has_parts(
            page_doc(d, page, refs, stored, opened, floats),
            base,
            page_texts(page, refs, stored, opened, floats),
        ),
    decreases page.len(),
{
    if page.len() == 0 {
        assert(page_texts(page, refs, stored, opened, floats) =~= Seq::empty());
    } else {
        let rest = page.drop_last();
        assert forall|i: int| 0 <= i < rest.len() implies (block_of(
            refs[(#[trigger] rest[i]).block as int],
            stored,
            opened,
        ) matches Some(b) && is_flat_whole(b, rest[i].at.row)) by {
            assert(rest[i] == page[i]);
        }
        lemma_page_parts(d, base, rest, refs, stored, opened, floats);
        let before = page_doc(d, rest, refs, stored, opened, floats);
        let parts = page_texts(rest, refs, stored, opened, floats);
        let h = page[page.len() - 1];
        let blk = block_of(refs[h.block as int], stored, opened)->0;
        assert(is_flat_whole(blk, h.at.row));
        lemma_opened(before, '{');
        let end = lemma_inside(blk, before, before.lead().push('{'), h.at.row, floats);
        let inside = whole_members(blk, h.at.row, floats);
        lemma_closed(before, base, parts, end, inside, '{', '}');
        assert(parts.push(object(inside)) =~= page_texts(page, refs, stored, opened, floats));
    }
}

/// A page is written as an array of its rows, in the order they are delivered
/// in, each as its block writes it.
pub proof fn law_a_page_is_written_row_by_row(
    page: Seq<Hit>,
    refs: Seq<Src>,
    stored: Seq<Stored>,
    opened: Seq<Option<Block>>,
    floats: Floats,
)
    requires
        is_flat_page(page, refs, stored, opened),
    ensures
        page_doc(Doc::empty().enter('['), page, refs, stored, opened, floats).leave(']').text == array(
            page_texts(page, refs, stored, opened, floats),
        ),
{
    lemma_opened(Doc::empty(), '[');
    lemma_page_parts(
        Doc::empty().enter('['),
        Doc::empty().lead().push('['),
        page,
        refs,
        stored,
        opened,
        floats,
    );
    lemma_whole(
        page_doc(Doc::empty().enter('['), page, refs, stored, opened, floats),
        page_texts(page, refs, stored, opened, floats),
        '[',
        ']',
    );
}

} // verus!
