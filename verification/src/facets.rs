//! Entities as something a human can pick: which are present, what they are
//! called, and how many blocks hold them.

use crate::block::BlockRef;
use crate::frame::{
    all_ready, entity_keys, frame_ready, has_key, held_tables, keys_in, label, label_of, labels,
    resource_names, tables_of, with_names, Frame, Held,
};
use crate::identity::NO_IDENTITY;
use crate::json::{Doc, Json};
use crate::order::{compare_text, lemma_rank_bytes, rank_bytes, utf8, Rank};
use crate::scan::Named;
use crate::search::{is_here, Results, Stats};
use crate::signal::Open;
use crate::sort::{lemma_ranked_contains, ranked, sort_ranked, Ranked};
use crate::source::{all_sources, sources, Src};
use crate::tally::{value_of, with_value, Tally};
use crate::text::decimal;
use std::collections::HashMap;
use vstd::prelude::*;

verus! {

broadcast use vstd::std_specs::hash::group_hash_axioms;

/// The published blocks of one signal, and what can be read of each.
pub struct Shelf {
    pub disk: Vec<BlockRef>,
    pub held: Vec<Held>,
}

/// The signals, in the order their shelves and their snapshots are handed in.
/// Sequence numbers are per signal, so the snapshots of one must never meet the
/// blocks of another.
pub fn signals() -> (r: [&'static str; 3])
    ensures
        r@ == seq!["logs", "traces", "metrics"],
{
    ["logs", "traces", "metrics"]
}

/// The snapshots of a signal. A list that is too short means that there are
/// none for the rest.
pub open spec fn open_of(open: Seq<Vec<Open>>, i: int) -> Seq<Open> {
    if i < open.len() {
        open[i]@
    } else {
        Seq::empty()
    }
}

/// The snapshots of a signal.
pub fn open_for<'a>(open: &'a Vec<Vec<Open>>, i: usize, none: &'a Vec<Open>) -> (r: &'a Vec<Open>)
    requires
        none@.len() == 0,
    ensures
        r@ == open_of(open@, i as int),
{
    if i < open.len() {
        &open[i]
    } else {
        assert(none@ =~= Seq::<Open>::empty());
        none
    }
}

/// Every shelf and every snapshot can be read.
pub open spec fn shelves_ready(shelves: Seq<Shelf>, open: Seq<Vec<Open>>) -> bool {
    forall|i: int|
        0 <= i < shelves.len() ==> (#[trigger] shelves[i]).disk@.len() == shelves[i].held@.len()
            && all_ready(shelves[i].held@, open_of(open, i))
}

// ---------------------------------------------------------------------------
// Which blocks are read, and in which order.

/// A candidate of one of the shelves.
#[derive(Debug, Clone, Copy, PartialEq, Eq, Structural)]
pub struct Pick {
    pub shelf: usize,
    pub src: Src,
}

impl Ranked for Pick {
    /// Newest first, whatever the signal.
    open spec fn ahead(self, other: Pick) -> bool {
        self.src.ahead(other.src)
    }

    proof fn lemma_order(a: Pick, b: Pick, c: Pick) {
    }

    fn is_ahead(&self, other: &Pick) -> (r: bool) {
        self.src.is_ahead(&other.src)
    }
}

/// Those of the first `n` candidates of a shelf whose range meets a window.
pub open spec fn picked_upto(all: Seq<Src>, shelf: usize, from: i64, to: i64, n: nat) -> Seq<Pick>
    decreases n,
{
    if n == 0 {
        Seq::empty()
    } else {
        let before = picked_upto(all, shelf, from, to, (n - 1) as nat);
        if all[n - 1].meets(from, to) {
            before.push(Pick { shelf, src: all[n - 1] })
        } else {
            before
        }
    }
}

/// The candidates of a shelf.
pub open spec fn on_shelf(shelves: Seq<Shelf>, open: Seq<Vec<Open>>, i: int) -> Seq<Src> {
    all_sources(shelves[i].disk@, open_of(open, i))
}

/// Those candidates of the first `n` shelves whose range meets a window, one
/// shelf after the other.
pub open spec fn picks_upto(
    shelves: Seq<Shelf>,
    open: Seq<Vec<Open>>,
    from: i64,
    to: i64,
    n: nat,
) -> Seq<Pick>
    decreases n,
{
    if n == 0 {
        Seq::empty()
    } else {
        let all = on_shelf(shelves, open, n - 1);
        picks_upto(shelves, open, from, to, (n - 1) as nat) + picked_upto(
            all,
            (n - 1) as usize,
            from,
            to,
            all.len(),
        )
    }
}

/// The candidates of all the shelves whose range meets a window, newest first.
pub open spec fn newest_picks(shelves: Seq<Shelf>, open: Seq<Vec<Open>>, from: i64, to: i64) -> Seq<
    Pick,
> {
    ranked(picks_upto(shelves, open, from, to, shelves.len()))
}

/// How many candidates the first `n` shelves have, as far as a word can say it.
pub open spec fn total_upto(shelves: Seq<Shelf>, open: Seq<Vec<Open>>, n: nat) -> usize
    decreases n,
{
    if n == 0 {
        0
    } else {
        total_upto(shelves, open, (n - 1) as nat).wrapping_add(
            on_shelf(shelves, open, n - 1).len() as usize,
        )
    }
}

/// What is read of a candidate.
pub open spec fn pick_tables(p: Pick, shelves: Seq<Shelf>, open: Seq<Vec<Open>>) -> Seq<Named> {
    tables_of(p.src, shelves[p.shelf as int].held@, open_of(open, p.shelf as int))
}

/// Whether a candidate is one of those at hand.
pub open spec fn pick_here(p: Pick, shelves: Seq<Shelf>, open: Seq<Vec<Open>>) -> bool {
    p.shelf < shelves.len() && is_here(
        p.src,
        shelves[p.shelf as int].held@.len(),
        open_of(open, p.shelf as int).len(),
    )
}

proof fn lemma_picked_here(
    shelves: Seq<Shelf>,
    open: Seq<Vec<Open>>,
    all: Seq<Src>,
    shelf: usize,
    from: i64,
    to: i64,
    n: nat,
)
    requires
        n <= all.len(),
        shelf < shelves.len(),
        forall|i: int|
            0 <= i < all.len() ==> is_here(
                #[trigger] all[i],
                shelves[shelf as int].held@.len(),
                open_of(open, shelf as int).len(),
            ),
    ensures
        forall|i: int|
            0 <= i < picked_upto(all, shelf, from, to, n).len() ==> pick_here(
                #[trigger] picked_upto(all, shelf, from, to, n)[i],
                shelves,
                open,
            ),
    decreases n,
{
    if n > 0 {
        lemma_picked_here(shelves, open, all, shelf, from, to, (n - 1) as nat);
        let before = picked_upto(all, shelf, from, to, (n - 1) as nat);
        let now = picked_upto(all, shelf, from, to, n);
        assert forall|i: int| 0 <= i < now.len() implies pick_here(#[trigger] now[i], shelves, open) by {
            if i < before.len() {
                assert(now[i] == before[i]);
            } else {
                assert(now[i].src == all[n - 1]);
            }
        }
    }
}

fn pick_shelf(out: &mut Vec<Pick>, all: &Vec<Src>, shelf: usize, from: i64, to: i64)
    ensures
        final(out)@ == old(out)@ + picked_upto(all@, shelf, from, to, all@.len()),
{
    let ghost was = out@;
    let mut i: usize = 0;
    assert(was + picked_upto(all@, shelf, from, to, 0) =~= was);
    while i < all.len()
        invariant
            i <= all@.len(),
            out@ == was + picked_upto(all@, shelf, from, to, i as nat),
        decreases all@.len() - i,
    {
        if all[i].overlaps(from, to) {
            out.push(Pick { shelf, src: all[i] });
        }
        assert(out@ =~= was + picked_upto(all@, shelf, from, to, (i + 1) as nat));
        i = i + 1;
    }
}

/// The candidates of all the shelves whose range meets a window, newest first,
/// and how many there are in or out of it.
fn pick_newest(shelves: &Vec<Shelf>, from: i64, to: i64, open: &Vec<Vec<Open>>) -> (r: (
    Vec<Pick>,
    usize,
))
    requires
        shelves_ready(shelves@, open@),
    ensures
        r.0@ == newest_picks(shelves@, open@, from, to),
        r.1 == total_upto(shelves@, open@, shelves@.len()),
        forall|i: int| 0 <= i < r.0@.len() ==> pick_here(#[trigger] r.0@[i], shelves@, open@),
{
    let none: Vec<Open> = Vec::new();
    let mut out: Vec<Pick> = Vec::new();
    let mut total: usize = 0;
    let mut i: usize = 0;
    while i < shelves.len()
        invariant
            i <= shelves@.len(),
            none@.len() == 0,
            shelves_ready(shelves@, open@),
            out@ == picks_upto(shelves@, open@, from, to, i as nat),
            total == total_upto(shelves@, open@, i as nat),
            forall|k: int| 0 <= k < out@.len() ==> pick_here(#[trigger] out@[k], shelves@, open@),
        decreases shelves@.len() - i,
    {
        let s = &shelves[i];
        let o = open_for(open, i, &none);
        assert(s.disk.len() <= usize::MAX);
        assert(o.len() <= usize::MAX);
        let all = sources(&s.disk, o);
        let ghost was = out@;
        let ghost more = picked_upto(all@, i, from, to, all@.len());
        proof {
            crate::search::lemma_sources_here(s.disk@, o@);
            lemma_picked_here(shelves@, open@, all@, i, from, to, all@.len());
        }
        total = total.wrapping_add(all.len());
        pick_shelf(&mut out, &all, i, from, to);
        assert forall|k: int| 0 <= k < out@.len() implies pick_here(
            #[trigger] out@[k],
            shelves@,
            open@,
        ) by {
            if k < was.len() {
                assert(out@[k] == was[k]);
            } else {
                assert(out@[k] == more[k - was.len()]);
            }
        }
        i = i + 1;
    }
    let ghost all = out@;
    let r = sort_ranked(out);
    assert forall|k: int| 0 <= k < r@.len() implies pick_here(#[trigger] r@[k], shelves@, open@) by {
        assert(r@.contains(r@[k]));
        lemma_ranked_contains(all, r@[k]);
        assert(all[all.index_of(r@[k])] == r@[k]);
    }
    (r, total)
}

fn picked_tables<'a>(p: &Pick, shelves: &'a Vec<Shelf>, open: &'a Vec<Vec<Open>>, none: &'a Vec<Open>) -> (r:
    &'a [Named])
    requires
        shelves_ready(shelves@, open@),
        pick_here(*p, shelves@, open@),
        none@.len() == 0,
    ensures
        r@ == pick_tables(*p, shelves@, open@),
        frame_ready(r@),
{
    let s = &shelves[p.shelf];
    let o = open_for(open, p.shelf, none);
    assert(s.disk@.len() == s.held@.len() && all_ready(s.held@, o@));
    held_tables(&p.src, &s.held, o)
}

// ---------------------------------------------------------------------------
// Which entities there are.

/// A listing so far: how many blocks hold each entity, and what it is called.
#[verifier::ext_equal]
pub struct FacetState {
    pub seen: Seq<(u64, u64)>,
    pub names: Map<u64, Seq<char>>,
    pub stats: Stats,
}

/// A count under a key, or zero.
pub open spec fn count_of(c: Option<u64>) -> u64 {
    match c {
        Some(n) => n,
        None => 0,
    }
}

/// The counts with one block whose resources have these identities, its first
/// `n` slots. Two resources may share an identity, and the block still counts
/// once. No identity is no entity.
pub open spec fn counted(seen: Seq<(u64, u64)>, keys: Seq<u64>, n: nat) -> Seq<(u64, u64)>
    decreases n,
{
    if n == 0 {
        seen
    } else {
        let before = counted(seen, keys, (n - 1) as nat);
        let k = keys[n - 1];
        if k != NO_IDENTITY && !keys.take(n - 1).contains(k) {
            with_value(before, k, count_of(value_of(before, k)).wrapping_add(1))
        } else {
            before
        }
    }
}

impl FacetState {
    /// Nothing listed.
    pub open spec fn none() -> FacetState {
        FacetState { seen: Seq::empty(), names: Map::empty(), stats: Stats::none() }
    }

    /// The listing with one block.
    pub open spec fn with_block(self, tables: Seq<Named>) -> FacetState {
        let keys = keys_in(tables);
        FacetState {
            seen: counted(self.seen, keys, keys.len()),
            names: with_names(self.names, tables, keys),
            stats: Stats { blocks_scanned: self.stats.blocks_scanned.wrapping_add(1), ..self.stats },
        }
    }

    /// The listing with this many candidates more to choose from.
    pub open spec fn with_total(self, blocks: usize) -> FacetState {
        FacetState {
            stats: Stats {
                blocks_total: self.stats.blocks_total.wrapping_add(blocks),
                ..self.stats
            },
            ..self
        }
    }

    /// The listing with the first `n` of some candidates.
    pub open spec fn with_picks(
        self,
        picks: Seq<Pick>,
        shelves: Seq<Shelf>,
        open: Seq<Vec<Open>>,
        n: nat,
    ) -> FacetState
        decreases n,
    {
        if n == 0 {
            self
        } else {
            self.with_picks(picks, shelves, open, (n - 1) as nat).with_block(
                pick_tables(picks[n - 1], shelves, open),
            )
        }
    }
}

/// The listing of a window over all the shelves: the blocks of every signal
/// together, newest first.
pub open spec fn listing_of(shelves: Seq<Shelf>, open: Seq<Vec<Open>>, from: i64, to: i64) -> FacetState {
    let picks = newest_picks(shelves, open, from, to);
    FacetState::none().with_total(total_upto(shelves, open, shelves.len())).with_picks(
        picks,
        shelves,
        open,
        picks.len(),
    )
}

/// A listing under way.
pub struct Facets {
    pub seen: Tally<u64, u64>,
    pub names: HashMap<u64, String>,
    pub stats: Stats,
}

impl View for Facets {
    type V = FacetState;

    open spec fn view(&self) -> FacetState {
        FacetState { seen: self.seen@, names: labels(self.names@), stats: self.stats }
    }
}

/// One entity of a listing.
pub struct Entity {
    pub name: String,
    pub key: u64,
    pub blocks: u64,
}

impl Ranked for Entity {
    /// By name, then by key: a list is read by a human, and the key is a hash.
    open spec fn ahead(self, other: Entity) -> bool {
        let r = rank_bytes(utf8(self.name@), utf8(other.name@));
        r == Rank::Less || (r == Rank::Equal && self.key < other.key)
    }

    proof fn lemma_order(a: Entity, b: Entity, c: Entity) {
        let (x, y, z) = (utf8(a.name@), utf8(b.name@), utf8(c.name@));
        lemma_rank_bytes(x, y, z);
        lemma_rank_bytes(y, x, z);
        lemma_rank_bytes(y, z, x);
        lemma_rank_bytes(z, y, x);
        lemma_rank_bytes(z, x, y);
        lemma_rank_bytes(x, z, y);
    }

    fn is_ahead(&self, other: &Entity) -> (r: bool) {
        match compare_text(self.name.as_str(), other.name.as_str()) {
            Rank::Less => true,
            Rank::Equal => self.key < other.key,
            Rank::Greater => false,
        }
    }
}

/// The entities that a listing has, in key order.
pub open spec fn lists(v: Seq<Entity>, s: FacetState) -> bool {
    &&& v.len() == s.seen.len()
    &&& forall|i: int|
        0 <= i < v.len() ==> (#[trigger] v[i]).key == s.seen[i].0 && v[i].blocks == s.seen[i].1
            && v[i].name@ == label(s.names, s.seen[i].0)
}

/// An open array with entities added to it.
pub open spec fn listing_doc(d: Doc, v: Seq<Entity>) -> Doc
    decreases v.len(),
{
    if v.len() == 0 {
        d
    } else {
        let e = v.last();
        listing_doc(d, v.drop_last()).enter('{').key("key"@).digits_str(e.key as int).key(
            "name"@,
        ).str(e.name@).key("blocks"@).value(decimal(e.blocks as nat)).leave('}')
    }
}

/// A response that is a listing: its entities by name and then key, and how
/// many there are.
pub open spec fn is_listing(r: Results, s: FacetState) -> bool {
    &&& exists|v: Seq<Entity>| #[trigger] lists(v, s) && r.json@ == listing_doc(
        Doc::empty().enter('['),
        ranked(v),
    ).leave(']').text
    &&& r.stats == (Stats { rows_matched: s.seen.len() as usize, ..s.stats })
    &&& r.next is None
}

impl Facets {
    pub open spec fn wf(&self) -> bool {
        self.seen.wf()
    }

    pub fn new() -> (r: Facets)
        ensures
            r.wf(),
            r@ == FacetState::none(),
    {
        let r = Facets { seen: Tally::new(), names: HashMap::new(), stats: Stats::default() };
        assert(r@ =~= FacetState::none());
        r
    }

    /// Count candidates, read or not.
    pub fn offer(&mut self, blocks: usize)
        requires
            old(self).wf(),
        ensures
            final(self).wf(),
            final(self)@ == old(self)@.with_total(blocks),
    {
        self.stats.blocks_total = self.stats.blocks_total.wrapping_add(blocks);
    }

    /// Take in one block.
    pub fn absorb(&mut self, tables: &[Named])
        requires
            old(self).wf(),
            frame_ready(tables@),
        ensures
            final(self).wf(),
            final(self)@ == old(self)@.with_block(tables@),
    {
        self.stats.blocks_scanned = self.stats.blocks_scanned.wrapping_add(1);
        let keys = entity_keys(tables);
        resource_names(tables, &keys, &mut self.names);
        let ghost seen = self.seen@;
        let ghost rest = (self.names, self.stats);
        let mut i: usize = 0;
        while i < keys.len()
            invariant
                i <= keys@.len(),
                self.seen.wf(),
                self.seen@ == counted(seen, keys@, i as nat),
                (self.names, self.stats) == rest,
            decreases keys@.len() - i,
        {
            let k = keys[i];
            if k != NO_IDENTITY && !is_among(&keys, i, k) {
                let n = match self.seen.get(k) {
                    Some(n) => n,
                    None => 0,
                };
                self.seen.put(k, n.wrapping_add(1));
            }
            i = i + 1;
        }
    }

    fn entities(&self) -> (r: Vec<Entity>)
        ensures
            lists(r@, self@),
    {
        let mut out: Vec<Entity> = Vec::new();
        let mut i: usize = 0;
        while i < self.seen.len()
            invariant
                i <= self.seen@.len(),
                out@.len() == i,
                forall|k: int|
                    0 <= k < i ==> (#[trigger] out@[k]).key == self.seen@[k].0 && out@[k].blocks
                        == self.seen@[k].1 && out@[k].name@ == label(
                        labels(self.names@),
                        self.seen@[k].0,
                    ),
            decreases self.seen@.len() - i,
        {
            let (key, blocks) = *self.seen.entry(i);
            out.push(Entity { name: label_of(&self.names, key).to_owned(), key, blocks });
            i = i + 1;
        }
        out
    }

    /// The listing as a response.
    pub fn finish(&self) -> (r: Results)
        ensures
            is_listing(r, self@),
    {
        let found = self.entities();
        let ghost v = found@;
        let out = sort_ranked(found);
        let mut j = Json::new();
        j.enter('[');
        let ghost d = j@;
        let mut i: usize = 0;
        assert(out@.take(0) =~= Seq::<Entity>::empty());
        while i < out.len()
            invariant
                i <= out@.len(),
                j@ == listing_doc(d, out@.take(i as int)),
            decreases out@.len() - i,
        {
            assert(out@.take(i + 1).drop_last() =~= out@.take(i as int));
            j.enter('{');
            j.key("key");
            j.u64_str(out[i].key);
            j.key("name");
            j.str(out[i].name.as_str());
            j.key("blocks");
            j.u64(out[i].blocks);
            j.leave('}');
            i = i + 1;
        }
        assert(out@.take(i as int) =~= out@);
        j.leave(']');
        assert(lists(v, self@));
        Results {
            json: j.into_string(),
            stats: Stats { rows_matched: self.seen.len(), ..self.stats },
            next: None,
        }
    }
}

/// Whether a key is among the first `n`.
fn is_among(keys: &Vec<u64>, n: usize, key: u64) -> (r: bool)
    requires
        n <= keys@.len(),
    ensures
        r == keys@.take(n as int).contains(key),
{
    let ghost s = keys@.take(n as int);
    let mut i: usize = 0;
    while i < n
        invariant
            i <= n <= keys@.len(),
            s == keys@.take(n as int),
            forall|k: int| 0 <= k < i ==> #[trigger] s[k] != key,
        decreases n - i,
    {
        assert(s[i as int] == keys@[i as int]);
        if keys[i] == key {
            return true;
        }
        i = i + 1;
    }
    false
}

/// Every entity present in a window, with its name and how many blocks hold it,
/// over all signals. A service that was renamed shows the name it has now,
/// whichever signal says it. Reads resource tables only, so it is a lookup
/// rather than a scan.
pub fn entities(shelves: &Vec<Shelf>, from: i64, to: i64, open: &Vec<Vec<Open>>) -> (r: Results)
    requires
        shelves_ready(shelves@, open@),
    ensures
        is_listing(r, listing_of(shelves@, open@, from, to)),
{
    let none: Vec<Open> = Vec::new();
    let (picks, total) = pick_newest(shelves, from, to, open);
    let mut f = Facets::new();
    f.offer(total);
    let ghost start = f@;
    let mut i: usize = 0;
    while i < picks.len()
        invariant
            i <= picks@.len(),
            none@.len() == 0,
            shelves_ready(shelves@, open@),
            forall|k: int| 0 <= k < picks@.len() ==> pick_here(#[trigger] picks@[k], shelves@, open@),
            f.wf(),
            f@ == start.with_picks(picks@, shelves@, open@, i as nat),
        decreases picks@.len() - i,
    {
        f.absorb(picked_tables(&picks[i], shelves, open, &none));
        i = i + 1;
    }
    f.finish()
}

// ---------------------------------------------------------------------------
// What they are called.

/// Whether a block holds one of some entities.
pub open spec fn holds_any(keys: Seq<u64>, entities: Seq<u64>) -> bool {
    exists|i: int| 0 <= i < keys.len() && entities.contains(#[trigger] keys[i])
}

fn any_of(keys: &Vec<u64>, entities: &Vec<u64>) -> (r: bool)
    ensures
        r == holds_any(keys@, entities@),
{
    let mut i: usize = 0;
    while i < keys.len()
        invariant
            i <= keys@.len(),
            forall|k: int| 0 <= k < i ==> !entities@.contains(#[trigger] keys@[k]),
        decreases keys@.len() - i,
    {
        if has_key(entities, keys[i]) {
            return true;
        }
        i = i + 1;
    }
    false
}

/// The names with what a block says, if it holds one of the entities.
pub open spec fn named_block(names: Map<u64, Seq<char>>, tables: Seq<Named>, entities: Seq<u64>) -> Map<
    u64,
    Seq<char>,
> {
    if holds_any(keys_in(tables), entities) {
        with_names(names, tables, keys_in(tables))
    } else {
        names
    }
}

/// The names with what the first `n` of some candidates say.
pub open spec fn named_picks(
    picks: Seq<Pick>,
    shelves: Seq<Shelf>,
    open: Seq<Vec<Open>>,
    entities: Seq<u64>,
    n: nat,
) -> Map<u64, Seq<char>>
    decreases n,
{
    if n == 0 {
        Map::empty()
    } else {
        named_block(
            named_picks(picks, shelves, open, entities, (n - 1) as nat),
            pick_tables(picks[n - 1], shelves, open),
            entities,
        )
    }
}

/// The names that the blocks of a window give to some entities: those of every
/// signal together, newest first.
pub open spec fn naming_of(
    shelves: Seq<Shelf>,
    open: Seq<Vec<Open>>,
    from: i64,
    to: i64,
    entities: Seq<u64>,
) -> Map<u64, Seq<char>> {
    let picks = newest_picks(shelves, open, from, to);
    named_picks(picks, shelves, open, entities, picks.len()).restrict(entities.to_set())
}

/// Those of the names that belong to one of the entities.
fn retained(names: &HashMap<u64, String>, entities: &Vec<u64>) -> (r: HashMap<u64, String>)
    ensures
        labels(r@) == labels(names@).restrict(entities@.to_set()),
{
    let mut out: HashMap<u64, String> = HashMap::new();
    let mut i: usize = 0;
    assert(labels(out@) =~= labels(names@).restrict(entities@.take(0).to_set()));
    while i < entities.len()
        invariant
            i <= entities@.len(),
            labels(out@) == labels(names@).restrict(entities@.take(i as int).to_set()),
        decreases entities@.len() - i,
    {
        let k = entities[i];
        let ghost was = out@;
        let ghost shorter = entities@.take(i as int);
        let ghost longer = entities@.take(i + 1);
        proof {
            assert(longer =~= shorter.push(k));
            assert forall|x: u64| longer.to_set().contains(x) <==> shorter.to_set().contains(x) || x
                == k by {
                if shorter.contains(x) {
                    let p = shorter.index_of(x);
                    assert(longer[p] == x);
                }
                if longer.contains(x) && x != k {
                    let p = longer.index_of(x);
                    assert(shorter[p] == x);
                }
                assert(longer[i as int] == k);
            }
        }
        if let Some(name) = names.get(&k) {
            let name = name.as_str().to_owned();
            out.insert(k, name);
            assert(labels(out@) =~= labels(was).insert(k, name@));
        }
        assert(labels(out@) =~= labels(names@).restrict(longer.to_set()));
        i = i + 1;
    }
    assert(entities@.take(i as int) =~= entities@);
    out
}

/// The service names of the entities of a frame, as far as the blocks that
/// meet its window say.
pub fn names_of(shelves: &Vec<Shelf>, f: &Frame, open: &Vec<Vec<Open>>) -> (r: HashMap<u64, String>)
    requires
        shelves_ready(shelves@, open@),
    ensures
        labels(r@) == naming_of(shelves@, open@, f.from, f.to, f.entities@),
{
    let none: Vec<Open> = Vec::new();
    let mut names: HashMap<u64, String> = HashMap::new();
    if f.entities.len() == 0 {
        assert(labels(names@) =~= naming_of(shelves@, open@, f.from, f.to, f.entities@));
        return names;
    }
    let (picks, _) = pick_newest(shelves, f.from, f.to, open);
    let mut i: usize = 0;
    assert(labels(names@) =~= Map::empty());
    while i < picks.len()
        invariant
            i <= picks@.len(),
            none@.len() == 0,
            shelves_ready(shelves@, open@),
            forall|k: int| 0 <= k < picks@.len() ==> pick_here(#[trigger] picks@[k], shelves@, open@),
            labels(names@) == named_picks(picks@, shelves@, open@, f.entities@, i as nat),
        decreases picks@.len() - i,
    {
        name_block(picked_tables(&picks[i], shelves, open, &none), &f.entities, &mut names);
        i = i + 1;
    }
    retained(&names, &f.entities)
}

/// Take in what one block says, if it holds one of the entities.
pub fn name_block(tables: &[Named], entities: &Vec<u64>, names: &mut HashMap<u64, String>)
    requires
        frame_ready(tables@),
    ensures
        labels(final(names)@) == named_block(labels(old(names)@), tables@, entities@),
{
    let keys = entity_keys(tables);
    if any_of(&keys, entities) {
        resource_names(tables, &keys, names);
    }
}

} // verus!
