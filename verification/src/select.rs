//! Opening a block out of its tables, and selecting the rows a query asks for.

use crate::attrfilter::{attr_parents, parents_carrying};
use crate::filter::{cell_satisfies, field_filter};
use crate::float::Floats;
use crate::query::{Op, Search, Target, Term, Value};
use crate::scan::{level_carries, owner_of, time_column, u16_column, u16s_named, Attrs, Block};
use crate::table::Table;
use vstd::prelude::*;

verus! {

/// Marks the slots of `out` that `ids` name.
fn mark(out: &mut Vec<bool>, ids: &Vec<u32>)
    ensures
        final(out)@.len() == old(out)@.len(),
        forall|i: int|
            0 <= i < old(out)@.len() ==> #[trigger] final(out)@[i] == (old(out)@[i] || (i <= u32::MAX
                && ids@.contains(i as u32))),
{
    let mut k: usize = 0;
    while k < ids.len()
        invariant
            k <= ids@.len(),
            out@.len() == old(out)@.len(),
            forall|i: int|
                0 <= i < out@.len() ==> #[trigger] out@[i] == (old(out)@[i] || exists|j: int|
                    0 <= j < k && #[trigger] ids@[j] == i),
        decreases ids@.len() - k,
    {
        let at: usize = ids[k] as usize;
        let ghost was = out@;
        if at < out.len() {
            out.set(at, true);
        }
        assert forall|i: int| 0 <= i < out@.len() implies #[trigger] out@[i] == (old(out)@[i]
            || exists|j: int| 0 <= j < k + 1 && #[trigger] ids@[j] == i) by {
            if i == at {
                assert(ids@[k as int] == i);
            } else if was[i] && !old(out)@[i] {
                let j = choose|j: int| 0 <= j < k && #[trigger] ids@[j] == i;
                assert(ids@[j] == i);
            }
        }
        k = k + 1;
    }
    assert forall|i: int| 0 <= i < old(out)@.len() implies #[trigger] out@[i] == (old(out)@[i] || (i
        <= u32::MAX && ids@.contains(i as u32))) by {
        if out@[i] && !old(out)@[i] {
            let j = choose|j: int| 0 <= j < k && #[trigger] ids@[j] == i;
            assert(ids@.contains(ids@[j]));
        }
        if i <= u32::MAX && ids@.contains(i as u32) {
            let j = ids@.index_of(i as u32);
            assert(ids@[j] == i);
        }
    }
}

impl<'a> Block<'a> {
    /// Marks the root rows whose entity in column `fk` carries the term.
    fn mark_entities(
        &self,
        out: &mut Vec<bool>,
        a: &Option<Attrs<'a>>,
        fk: &str,
        key: &str,
        op: Op,
        v: &Value,
        floats: &Floats,
    )
        requires
            self.wf(),
            a matches Some(t) ==> t.wf(),
            floats.wf(),
            old(out)@.len() == self.root.rows,
        ensures
            final(out)@.len() == old(out)@.len(),
            forall|i: int|
                0 <= i < old(out)@.len() ==> #[trigger] final(out)@[i] == (old(out)@[i]
                    || self.entity_carries(*a, fk@, i, key@, op, *v, *floats)),
    {
        let (t, col) = match (a, u16_column(self.root, fk)) {
            (Some(t), Some(c)) => (t, c),
            _ => {
                return ;
            },
        };
        let ids = attr_parents(t.rows, key, op, v, floats);
        let mut wanted: Vec<bool> = Vec::new();
        let mut k: usize = 0;
        while k < 0x1_0000
            invariant
                k <= 0x1_0000,
                wanted@.len() == k,
                forall|i: int| 0 <= i < k ==> !wanted@[i],
            decreases 0x1_0000 - k,
        {
            wanted.push(false);
            k = k + 1;
        }
        mark(&mut wanted, &ids);
        let mut i: usize = 0;
        while i < col.len()
            invariant
                i <= col@.len(),
                col@.len() == self.root.rows,
                out@.len() == self.root.rows,
                old(out)@.len() == self.root.rows,
                wanted@.len() == 0x1_0000,
                u16s_named(*self.root, fk@) == Some(col@),
                *a == Some(*t),
                ids@ == parents_carrying(*t.rows, t.rows.rows as nat, key@, op, *v, *floats),
                forall|j: int| 0 <= j < wanted@.len() ==> #[trigger] wanted@[j] == ids@.contains(j as u32),
                forall|j: int|
                    0 <= j < out@.len() ==> #[trigger] out@[j] == (old(out)@[j] || (j < i
                        && self.entity_carries(*a, fk@, j, key@, op, *v, *floats))),
            decreases col@.len() - i,
        {
            let id: usize = col[i] as usize;
            assert(wanted@[id as int] == ids@.contains(id as u32));
            if wanted[id] {
                out.set(i, true);
            }
            i = i + 1;
        }
    }

    /// Marks the root rows one of whose children, in child table `c`, carries
    /// the term.
    fn mark_children(
        &self,
        out: &mut Vec<bool>,
        c: usize,
        key: &str,
        op: Op,
        v: &Value,
        floats: &Floats,
    )
        requires
            self.wf(),
            floats.wf(),
            c < self.children@.len(),
            old(out)@.len() == self.root.rows,
        ensures
            final(out)@.len() == old(out)@.len(),
            forall|i: int|
                0 <= i < old(out)@.len() ==> #[trigger] final(out)@[i] == (old(out)@[i] || exists|
                    id: u32,
                |
                    level_carries(self.children@[c as int].attrs, id, key@, op, *v, *floats)
                        && #[trigger] owner_of(*self.children@[c as int].rows, id) == Some(i as u32)),
    {
        let child = &self.children[c];
        assert(child.wf());
        let a = match &child.attrs {
            Some(a) => a,
            None => {
                return ;
            },
        };
        let ids = attr_parents(a.rows, key, op, v, floats);
        let mut k: usize = 0;
        while k < ids.len()
            invariant
                k <= ids@.len(),
                self.root.rows < u32::MAX,
                child.wf(),
                out@.len() == self.root.rows,
                old(out)@.len() == self.root.rows,
                forall|i: int|
                    0 <= i < out@.len() ==> #[trigger] out@[i] == (old(out)@[i] || exists|j: int|
                        0 <= j < k && owner_of(*child.rows, #[trigger] ids@[j]) == Some(i as u32)),
            decreases ids@.len() - k,
        {
            let id: usize = ids[k] as usize;
            let ghost was = out@;
            let ghost owner = owner_of(*child.rows, ids@[k as int]);
            if id < child.parent_of_id.len() {
                let at: usize = child.parent_of_id[id] as usize;
                if at < out.len() {
                    out.set(at, true);
                }
            }
            assert forall|i: int| 0 <= i < out@.len() implies #[trigger] out@[i] == (old(out)@[i]
                || exists|j: int|
                0 <= j < k + 1 && owner_of(*child.rows, #[trigger] ids@[j]) == Some(i as u32)) by {
                if owner == Some(i as u32) {
                    assert(owner_of(*child.rows, ids@[k as int]) == Some(i as u32));
                    assert(out@[i]);
                } else {
                    assert(out@[i] == was[i]);
                    if was[i] && !old(out)@[i] {
                        let j = choose|j: int|
                            0 <= j < k && owner_of(*child.rows, #[trigger] ids@[j]) == Some(i as u32);
                        assert(owner_of(*child.rows, ids@[j]) == Some(i as u32));
                    }
                }
            }
            k = k + 1;
        }
        assert forall|i: int| 0 <= i < out@.len() implies #[trigger] out@[i] == (old(out)@[i]
            || exists|id: u32|
            level_carries(child.attrs, id, key@, op, *v, *floats) && #[trigger] owner_of(
                *child.rows,
                id,
            ) == Some(i as u32)) by {
            if out@[i] && !old(out)@[i] {
                let j = choose|j: int|
                    0 <= j < k && owner_of(*child.rows, #[trigger] ids@[j]) == Some(i as u32);
                assert(ids@.contains(ids@[j]));
            }
            if exists|id: u32|
                level_carries(child.attrs, id, key@, op, *v, *floats) && #[trigger] owner_of(
                    *child.rows,
                    id,
                ) == Some(i as u32) {
                let id = choose|id: u32|
                    level_carries(child.attrs, id, key@, op, *v, *floats) && #[trigger] owner_of(
                        *child.rows,
                        id,
                    ) == Some(i as u32);
                let j = ids@.index_of(id);
                assert(owner_of(*child.rows, ids@[j]) == Some(i as u32));
            }
        }
    }

    /// A bitmap over root rows: does this record carry `key op value` at any
    /// attribute level it has?
    pub fn attr_rows(&self, key: &str, op: Op, v: &Value, floats: &Floats) -> (out: Vec<bool>)
        requires
            self.wf(),
            floats.wf(),
        ensures
            out@.len() == self.root.rows,
            forall|i: int|
                0 <= i < out@.len() ==> #[trigger] out@[i] == self.row_carries(i, key@, op, *v, *floats),
    {
        let n: usize = self.root.rows;
        let mut out: Vec<bool> = Vec::new();
        while out.len() < n
            invariant
                out@.len() <= n,
                forall|i: int| 0 <= i < out@.len() ==> !(#[trigger] out@[i]),
            decreases n - out@.len(),
        {
            out.push(false);
        }
        if let Some(a) = &self.attrs {
            let ids = attr_parents(a.rows, key, op, v, floats);
            mark(&mut out, &ids);
        }
        assert(forall|i: int|
            0 <= i < out@.len() ==> #[trigger] out@[i] == level_carries(
                self.attrs,
                i as u32,
                key@,
                op,
                *v,
                *floats,
            ));
        self.mark_entities(&mut out, &self.resource_attrs, "resource_id", key, op, v, floats);
        self.mark_entities(&mut out, &self.scope_attrs, "scope_id", key, op, v, floats);
        let ghost base = out@;
        let mut c: usize = 0;
        assert forall|i: int| 0 <= i < base.len() implies !self.child_carries(
            0,
            i,
            key@,
            op,
            *v,
            *floats,
        ) by {}
        while c < self.children.len()
            invariant
                c <= self.children@.len(),
                self.wf(),
                floats.wf(),
                base.len() == self.root.rows,
                out@.len() == self.root.rows,
                forall|i: int|
                    0 <= i < out@.len() ==> #[trigger] out@[i] == (base[i] || self.child_carries(
                        c as nat,
                        i,
                        key@,
                        op,
                        *v,
                        *floats,
                    )),
            decreases self.children@.len() - c,
        {
            let ghost was = out@;
            self.mark_children(&mut out, c, key, op, v, floats);
            assert forall|i: int| 0 <= i < out@.len() implies #[trigger] out@[i] == (base[i]
                || self.child_carries((c + 1) as nat, i, key@, op, *v, *floats)) by {
                assert(was[i] == (base[i] || self.child_carries(c as nat, i, key@, op, *v, *floats)));
                if self.child_carries((c + 1) as nat, i, key@, op, *v, *floats) {
                    let (d, id) = choose|d: int, id: u32|
                        0 <= d < c + 1 && d < self.children@.len() && level_carries(
                            self.children@[d].attrs,
                            id,
                            key@,
                            op,
                            *v,
                            *floats,
                        ) && #[trigger] owner_of(*self.children@[d].rows, id) == Some(i as u32);
                    if d < c {
                        assert(self.child_carries(c as nat, i, key@, op, *v, *floats));
                    }
                }
            }
            c = c + 1;
        }
        out
    }

    /// The root's time column.
    pub fn time(&self) -> (r: Option<&'a Vec<i64>>)
        requires
            self.wf(),
        ensures
            r is Some <==> self.times() is Some,
            r matches Some(t) ==> self.times() == Some(t@) && t@.len() == self.root.rows,
    {
        time_column(self.root, self.signal.time_col())
    }
}

/// The numbers below `n`, in order.
pub open spec fn all_rows(n: nat) -> Seq<u32> {
    Seq::new(n, |i: int| i as u32)
}

proof fn lemma_filter_congruent(s: Seq<u32>, p: spec_fn(u32) -> bool, q: spec_fn(u32) -> bool)
    requires
        forall|i: int| 0 <= i < s.len() ==> p(#[trigger] s[i]) == q(s[i]),
    ensures
        s.filter(p) == s.filter(q),
    decreases s.len(),
{
    reveal(Seq::filter);
    if s.len() > 0 {
        lemma_filter_congruent(s.drop_last(), p, q);
    }
}

proof fn lemma_filter_twice(s: Seq<u32>, p: spec_fn(u32) -> bool, q: spec_fn(u32) -> bool)
    ensures
        s.filter(p).filter(q) == s.filter(|x: u32| p(x) && q(x)),
    decreases s.len(),
{
    reveal(Seq::filter);
    if s.len() > 0 {
        let t = s.drop_last();
        lemma_filter_twice(t, p, q);
        if p(s.last()) {
            let f = t.filter(p).push(s.last());
            assert(f.drop_last() =~= t.filter(p));
            assert(s.filter(p) == f);
        }
    }
}

pub proof fn lemma_filter_members(s: Seq<u32>, p: spec_fn(u32) -> bool, n: nat)
    requires
        forall|i: int| 0 <= i < s.len() ==> (#[trigger] s[i]) < n,
    ensures
        forall|i: int| 0 <= i < s.filter(p).len() ==> (#[trigger] s.filter(p)[i]) < n,
    decreases s.len(),
{
    reveal(Seq::filter);
    if s.len() > 0 {
        assert forall|i: int| 0 <= i < s.drop_last().len() implies (#[trigger] s.drop_last()[i]) < n by {
            assert(s[i] < n);
        }
        lemma_filter_members(s.drop_last(), p, n);
        assert(s[s.len() - 1] < n);
        let before = s.drop_last().filter(p);
        assert forall|i: int| 0 <= i < s.filter(p).len() implies (#[trigger] s.filter(p)[i]) < n by {
            if i < before.len() {
                assert(s.filter(p)[i] == before[i]);
            }
        }
    }
}

impl<'a> Block<'a> {
    /// Drops from `sel` the rows outside the window.
    fn window(sel: &mut Vec<u32>, time: &Vec<i64>, from: i64, to: i64)
        requires
            forall|i: int| 0 <= i < old(sel)@.len() ==> (#[trigger] old(sel)@[i]) < time@.len(),
        ensures
            final(sel)@ == old(sel)@.filter(|i: u32| from <= time@[i as int] <= to),
    {
        let ghost p = |i: u32| from <= time@[i as int] <= to;
        let mut out: Vec<u32> = Vec::new();
        let mut k: usize = 0;
        assert(sel@.take(0).filter(p) =~= Seq::<u32>::empty()) by {
            reveal(Seq::filter);
        }
        while k < sel.len()
            invariant
                k <= sel@.len(),
                sel@ == old(sel)@,
                forall|i: int| 0 <= i < sel@.len() ==> (#[trigger] sel@[i]) < time@.len(),
                p == (|i: u32| from <= time@[i as int] <= to),
                out@ == sel@.take(k as int).filter(p),
            decreases sel@.len() - k,
        {
            let row: u32 = sel[k];
            let t: i64 = time[row as usize];
            proof {
                reveal(Seq::filter);
                assert(sel@.take(k + 1).drop_last() =~= sel@.take(k as int));
                assert(sel@.take(k + 1).last() == row);
            }
            if from <= t && t <= to {
                out.push(row);
            }
            k = k + 1;
        }
        assert(sel@.take(k as int) =~= sel@);
        *sel = out;
    }

    /// Drops from `sel` the rows that are not marked.
    fn marked(sel: &mut Vec<u32>, marks: &Vec<bool>)
        requires
            forall|i: int| 0 <= i < old(sel)@.len() ==> (#[trigger] old(sel)@[i]) < marks@.len(),
        ensures
            final(sel)@ == old(sel)@.filter(|i: u32| marks@[i as int]),
    {
        let ghost p = |i: u32| marks@[i as int];
        let mut out: Vec<u32> = Vec::new();
        let mut k: usize = 0;
        assert(sel@.take(0).filter(p) =~= Seq::<u32>::empty()) by {
            reveal(Seq::filter);
        }
        while k < sel.len()
            invariant
                k <= sel@.len(),
                sel@ == old(sel)@,
                forall|i: int| 0 <= i < sel@.len() ==> (#[trigger] sel@[i]) < marks@.len(),
                p == (|i: u32| marks@[i as int]),
                out@ == sel@.take(k as int).filter(p),
            decreases sel@.len() - k,
        {
            let row: u32 = sel[k];
            proof {
                reveal(Seq::filter);
                assert(sel@.take(k + 1).drop_last() =~= sel@.take(k as int));
                assert(sel@.take(k + 1).last() == row);
            }
            if marks[row as usize] {
                out.push(row);
            }
            k = k + 1;
        }
        assert(sel@.take(k as int) =~= sel@);
        *sel = out;
    }

    /// Drops from `sel` the rows that do not satisfy one term.
    fn narrow(&self, sel: &mut Vec<u32>, t: &Term, floats: &Floats)
        requires
            self.wf(),
            floats.wf(),
            forall|i: int| 0 <= i < old(sel)@.len() ==> (#[trigger] old(sel)@[i]) < self.root.rows,
        ensures
            final(sel)@ == old(sel)@.filter(|i: u32| self.satisfies(i as int, *t, *floats)),
    {
        let ghost p = |i: u32| self.satisfies(i as int, *t, *floats);
        match &t.target {
            Target::Field(name) => {
                match self.root.column_by_name(name.as_str()) {
                    Some(c) => {
                        proof {
                            lemma_not_dict32(*self.root, name@);
                        }
                        if field_filter(sel, c, t.op, &t.value, floats) {
                            proof {
                                lemma_filter_congruent(
                                    old(sel)@,
                                    |i: u32| cell_satisfies(*c, i as int, t.op, t.value, *floats),
                                    p,
                                );
                            }
                        } else {
                            proof {
                                lemma_filter_none(old(sel)@, p);
                            }
                            sel.clear();
                        }
                    },
                    None => {
                        proof {
                            lemma_filter_none(old(sel)@, p);
                        }
                        sel.clear();
                    },
                }
            },
            Target::Attr(key) => {
                let marks = self.attr_rows(key.as_str(), t.op, &t.value, floats);
                Block::marked(sel, &marks);
                proof {
                    assert forall|i: int| 0 <= i < old(sel)@.len() implies (|i: u32|
                        marks@[i as int])(#[trigger] old(sel)@[i]) == p(old(sel)@[i]) by {
                        let r = old(sel)@[i] as int;
                        assert(marks@[r] == self.row_carries(r, key@, t.op, t.value, *floats));
                    }
                    lemma_filter_congruent(old(sel)@, |i: u32| marks@[i as int], p);
                }
            },
        }
    }

    /// Row numbers of `root` matching the query, ascending. `covered` says that
    /// the block's name already proves every row to be inside the window.
    pub fn select(&self, q: &Search, covered: bool, floats: &Floats) -> (sel: Vec<u32>)
        requires
            self.wf(),
            floats.wf(),
        ensures
            sel@ == all_rows(self.root.rows as nat).filter(
                |i: u32| self.selects(i as int, *q, covered, *floats),
            ),
    {
        let ghost all = all_rows(self.root.rows as nat);
        let ghost goal = |i: u32| self.selects(i as int, *q, covered, *floats);
        let time = match self.time() {
            Some(t) => t,
            None => {
                proof {
                    lemma_filter_none(all, goal);
                }
                return Vec::new();
            },
        };
        let mut sel: Vec<u32> = Vec::new();
        let mut i: usize = 0;
        while i < self.root.rows
            invariant
                i <= self.root.rows < u32::MAX,
                sel@ == all_rows(i as nat),
            decreases self.root.rows - i,
        {
            sel.push(i as u32);
            assert(sel@ =~= all_rows((i + 1) as nat));
            i = i + 1;
        }
        let ghost inside = |i: u32| covered || q.from <= time@[i as int] <= q.to;
        if !covered {
            Block::window(&mut sel, time, q.from, q.to);
        }
        proof {
            if covered {
                lemma_filter_all(all, inside);
            } else {
                lemma_filter_congruent(all, |i: u32| q.from <= time@[i as int] <= q.to, inside);
            }
            lemma_filter_members(all, inside, self.root.rows as nat);
        }
        let mut k: usize = 0;
        let ghost f0 = |i: u32| inside(i) && self.satisfies_all(i as int, q.terms@, 0, *floats);
        proof {
            lemma_filter_congruent(all, inside, f0);
        }
        while k < q.terms.len()
            invariant
                k <= q.terms@.len(),
                self.wf(),
                floats.wf(),
                all == all_rows(self.root.rows as nat),
                forall|i: int| 0 <= i < sel@.len() ==> (#[trigger] sel@[i]) < self.root.rows,
                sel@ == all.filter(
                    |i: u32| inside(i) && self.satisfies_all(i as int, q.terms@, k as nat, *floats),
                ),
            decreases q.terms@.len() - k,
        {
            let ghost before = |i: u32|
                inside(i) && self.satisfies_all(i as int, q.terms@, k as nat, *floats);
            let ghost one = |i: u32| self.satisfies(i as int, q.terms@[k as int], *floats);
            let ghost after = |i: u32|
                inside(i) && self.satisfies_all(i as int, q.terms@, (k + 1) as nat, *floats);
            self.narrow(&mut sel, &q.terms[k], floats);
            proof {
                lemma_filter_twice(all, before, one);
                assert forall|i: int| 0 <= i < all.len() implies (|x: u32| before(x) && one(x))(
                    #[trigger] all[i],
                ) == after(all[i]) by {
                    let x = all[i] as int;
                    if self.satisfies_all(x, q.terms@, (k + 1) as nat, *floats) {
                        assert(self.satisfies(x, q.terms@[k as int], *floats));
                    }
                }
                lemma_filter_congruent(all, |x: u32| before(x) && one(x), after);
                lemma_filter_members(all, after, self.root.rows as nat);
            }
            k = k + 1;
        }
        proof {
            lemma_filter_congruent(
                all,
                |i: u32| inside(i) && self.satisfies_all(i as int, q.terms@, k as nat, *floats),
                goal,
            );
        }
        sel
    }
}

proof fn lemma_filter_none(s: Seq<u32>, p: spec_fn(u32) -> bool)
    requires
        forall|i: int| 0 <= i < s.len() ==> !p(#[trigger] s[i]),
    ensures
        s.filter(p) == Seq::<u32>::empty(),
    decreases s.len(),
{
    reveal(Seq::filter);
    if s.len() > 0 {
        lemma_filter_none(s.drop_last(), p);
    }
}

proof fn lemma_filter_all(s: Seq<u32>, p: spec_fn(u32) -> bool)
    requires
        forall|i: int| 0 <= i < s.len() ==> p(#[trigger] s[i]),
    ensures
        s.filter(p) == s,
    decreases s.len(),
{
    reveal(Seq::filter);
    if s.len() > 0 {
        lemma_filter_all(s.drop_last(), p);
        assert(s.drop_last().push(s.last()) =~= s);
    }
}

proof fn lemma_not_dict32(t: Table, name: Seq<char>)
    requires
        forall|i: int| 0 <= i < t.fields@.len() ==> !((#[trigger] t.fields@[i]).column.data is Dict32),
    ensures
        t.named(name) matches Some(c) ==> !(c.data is Dict32),
{
    lemma_first_not_dict32(t.fields@, name);
}

proof fn lemma_first_not_dict32(fields: Seq<crate::table::Field>, name: Seq<char>)
    requires
        forall|i: int| 0 <= i < fields.len() ==> !((#[trigger] fields[i]).column.data is Dict32),
    ensures
        crate::table::first_named(fields, name) matches Some(c) ==> !(c.data is Dict32),
    decreases fields.len(),
{
    if fields.len() > 0 {
        assert(!(fields[0].column.data is Dict32));
        assert forall|i: int| 0 <= i < fields.skip(1).len() implies !((#[trigger] fields.skip(
            1,
        )[i]).column.data is Dict32) by {
            assert(fields.skip(1)[i] == fields[i + 1]);
        }
        lemma_first_not_dict32(fields.skip(1), name);
    }
}

} // verus!
