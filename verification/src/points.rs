//! The tables that data points are stored in, under construction.
//!
//! There are five metric types carrying four incompatible point shapes, and a
//! table for each shape: nulls are not free, and a query that graphs a counter
//! touches one table alone. The four draw their ids from one counter, so that a
//! point id names exactly one row in exactly one table.

use crate::attrs::{is_dict, DictColumn};
use crate::bloom::{bytes_of_words, lemma_word_bytes, word_bytes};
use crate::columns::{
    copy_all, count_up, counting, finish_doubles, finish_i64s, finish_ids, finish_texts,
    finish_times, finish_u32s, is_bools, is_double_slots, is_fixed_slots, is_i32s, is_i64_slots,
    is_text_slots, is_time_slots, is_times, is_u16s, is_u32_slots, is_u32s, is_u64s, is_u8s,
    marks_are, of_width, slot_text_bytes, wrapped_count, FixedSlots, Slots, TextSlots,
};
use crate::index::ByteIndex;
use crate::logs::{named_field, nanos, nanos_of, nonzero};
use crate::table::{Column, Data, Field, Table};
use vstd::prelude::*;

verus! {

// ---------------------------------------------------------------------------
// Columns of lists.

/// A finished column of doubles, none of them null.
pub open spec fn is_doubles(c: Column, vals: Seq<u64>) -> bool {
    &&& c.valid is None
    &&& c.data matches Data::Double(v) && v@ == vals
}

/// A finished column of lists of numbers, some of them null.
pub open spec fn is_u64_list_slots(c: Column, lists: Seq<Option<Seq<u64>>>) -> bool {
    &&& marks_are(c, lists)
    &&& c.data matches Data::List(v) && v@.len() == lists.len() && forall|i: int|
        0 <= i < lists.len() && lists[i] is Some ==> is_u64s(
            #[trigger] v@[i],
            lists[i].unwrap(),
        )
}

/// A finished column of lists of doubles, some of them null.
pub open spec fn is_double_list_slots(c: Column, lists: Seq<Option<Seq<u64>>>) -> bool {
    &&& marks_are(c, lists)
    &&& c.data matches Data::List(v) && v@.len() == lists.len() && forall|i: int|
        0 <= i < lists.len() && lists[i] is Some ==> is_doubles(
            #[trigger] v@[i],
            lists[i].unwrap(),
        )
}

/// What a list that may not be there holds.
pub open spec fn list_view(v: Option<&Vec<u64>>) -> Option<Seq<u64>> {
    match v {
        Some(x) => Some(x@),
        None => None,
    }
}

/// What a text that may not be there holds.
pub open spec fn text_view(v: Option<&String>) -> Option<Seq<char>> {
    match v {
        Some(x) => Some(x@),
        None => None,
    }
}

/// Lists of 64-bit numbers, some of them null.
pub struct NumberLists {
    pub vals: Vec<Vec<u64>>,
    pub valid: Vec<bool>,
}

impl NumberLists {
    pub closed spec fn wf(&self) -> bool {
        self.vals@.len() == self.valid@.len()
    }

    /// None of the lists is null.
    pub closed spec fn all_there(&self) -> bool {
        forall|i: int| 0 <= i < self.valid@.len() ==> #[trigger] self.valid@[i]
    }

    /// What each slot holds.
    pub closed spec fn lists(&self) -> Seq<Option<Seq<u64>>> {
        Seq::new(
            self.vals@.len(),
            |i: int|
                if self.valid@[i] {
                    Some(self.vals@[i]@)
                } else {
                    None
                },
        )
    }

    pub fn new() -> (r: NumberLists)
        ensures
            r.wf(),
            r.all_there(),
            r.lists() == Seq::<Option<Seq<u64>>>::empty(),
    {
        let r = NumberLists { vals: Vec::new(), valid: Vec::new() };
        assert(r.lists() =~= Seq::<Option<Seq<u64>>>::empty());
        r
    }

    /// Add a list.
    pub fn push(&mut self, v: Option<&Vec<u64>>)
        requires
            old(self).wf(),
        ensures
            final(self).wf(),
            final(self).lists() == old(self).lists().push(list_view(v)),
            old(self).all_there() && v is Some ==> final(self).all_there(),
    {
        let ghost before = *self;
        match v {
            Some(x) => {
                self.vals.push(copy_all(x));
                self.valid.push(true);
            },
            None => {
                self.vals.push(Vec::new());
                self.valid.push(false);
            },
        }
        proof {
            assert(self.lists() =~= before.lists().push(list_view(v)));
            if before.all_there() && v is Some {
                assert forall|i: int| 0 <= i < self.valid@.len() implies #[trigger] self.valid@[i] by {
                    if i < before.valid@.len() {
                        assert(before.valid@[i]);
                    }
                }
            }
        }
    }

    /// The finished column, as lists of numbers.
    pub fn finish_u64s(&self) -> (c: Column)
        requires
            self.wf(),
        ensures
            is_u64_list_slots(c, self.lists()),
            c.wf(),
            c.spec_len() == self.lists().len(),
    {
        let mut cols: Vec<Column> = Vec::new();
        let mut i: usize = 0;
        while i < self.vals.len()
            invariant
                i <= self.vals@.len(),
                cols@.len() == i,
                forall|k: int| 0 <= k < i ==> is_u64s(#[trigger] cols@[k], self.vals@[k]@),
                forall|k: int| 0 <= k < i ==> (#[trigger] cols@[k]).wf(),
            decreases self.vals@.len() - i,
        {
            cols.push(Column { valid: None, data: Data::U64(copy_all(&self.vals[i])) });
            i = i + 1;
        }
        Column { valid: Some(copy_all(&self.valid)), data: Data::List(cols) }
    }

    /// The finished column, as lists of doubles.
    pub fn finish_doubles(&self) -> (c: Column)
        requires
            self.wf(),
        ensures
            is_double_list_slots(c, self.lists()),
            c.wf(),
            c.spec_len() == self.lists().len(),
    {
        let mut cols: Vec<Column> = Vec::new();
        let mut i: usize = 0;
        while i < self.vals.len()
            invariant
                i <= self.vals@.len(),
                cols@.len() == i,
                forall|k: int| 0 <= k < i ==> is_doubles(#[trigger] cols@[k], self.vals@[k]@),
                forall|k: int| 0 <= k < i ==> (#[trigger] cols@[k]).wf(),
            decreases self.vals@.len() - i,
        {
            cols.push(Column { valid: None, data: Data::Double(copy_all(&self.vals[i])) });
            i = i + 1;
        }
        Column { valid: Some(copy_all(&self.valid)), data: Data::List(cols) }
    }
}

// ---------------------------------------------------------------------------
// What every point has.

/// What every point has.
pub struct HeadRow {
    pub id: u32,
    pub metric_id: u32,
    pub start: Option<i64>,
    pub time: i64,
    pub flags: u32,
}

/// The five columns every point table starts with.
pub struct DpHead {
    pub id: Vec<u32>,
    pub metric_id: Vec<u32>,
    pub start: Slots<i64>,
    pub time: Vec<i64>,
    pub flags: Vec<u32>,
}

impl DpHead {
    /// The columns are of one length.
    pub closed spec fn wf(&self) -> bool {
        &&& self.start.wf()
        &&& self.metric_id@.len() == self.id@.len()
        &&& self.start.slots().len() == self.id@.len()
        &&& self.time@.len() == self.id@.len()
        &&& self.flags@.len() == self.id@.len()
    }

    /// The rows.
    pub closed spec fn rows(&self) -> Seq<HeadRow> {
        Seq::new(
            self.id@.len(),
            |i: int|
                HeadRow {
                    id: self.id@[i],
                    metric_id: self.metric_id@[i],
                    start: self.start.slots()[i],
                    time: self.time@[i],
                    flags: self.flags@[i],
                },
        )
    }

    pub fn new() -> (r: DpHead)
        ensures
            r.wf(),
            r.rows() == Seq::<HeadRow>::empty(),
    {
        let r = DpHead {
            id: Vec::new(),
            metric_id: Vec::new(),
            start: Slots::new(),
            time: Vec::new(),
            flags: Vec::new(),
        };
        assert(r.rows() =~= Seq::<HeadRow>::empty());
        r
    }

    /// Add a row. An unset start is null.
    pub fn append(&mut self, id: u32, metric_id: u32, start: u64, time: u64, flags: u32)
        requires
            old(self).wf(),
        ensures
            final(self).wf(),
            final(self).rows() == old(self).rows().push(
                head_of(id, metric_id, start, time, flags),
            ),
    {
        let ghost before = self.rows();
        let s: i64 = nanos(start);
        self.id.push(id);
        self.metric_id.push(metric_id);
        self.start.push(
            if s != 0 {
                Some(s)
            } else {
                None
            },
            0,
        );
        self.time.push(nanos(time));
        self.flags.push(flags);
        assert(self.rows() =~= before.push(head_of(id, metric_id, start, time, flags)));
    }
}

/// What a point is stored under: an unset start is absent.
pub open spec fn head_of(id: u32, metric_id: u32, start: u64, time: u64, flags: u32) -> HeadRow {
    HeadRow {
        id,
        metric_id,
        start: nonzero(nanos_of(start)),
        time: nanos_of(time),
        flags,
    }
}

/// The aggregates of a point.
pub struct StatsRow {
    pub count: u64,
    pub sum: Option<u64>,
    pub min: Option<u64>,
    pub max: Option<u64>,
}

/// `count`, `sum`, `min` and `max`, shared by the aggregating point types.
pub struct Stats {
    pub count: Vec<u64>,
    pub sum: Slots<u64>,
    pub min: Slots<u64>,
    pub max: Slots<u64>,
}

impl Stats {
    /// The columns are of one length.
    pub closed spec fn wf(&self) -> bool {
        &&& self.sum.wf()
        &&& self.min.wf()
        &&& self.max.wf()
        &&& self.sum.slots().len() == self.count@.len()
        &&& self.min.slots().len() == self.count@.len()
        &&& self.max.slots().len() == self.count@.len()
    }

    /// The rows.
    pub closed spec fn rows(&self) -> Seq<StatsRow> {
        Seq::new(
            self.count@.len(),
            |i: int|
                StatsRow {
                    count: self.count@[i],
                    sum: self.sum.slots()[i],
                    min: self.min.slots()[i],
                    max: self.max.slots()[i],
                },
        )
    }

    pub fn new() -> (r: Stats)
        ensures
            r.wf(),
            r.rows() == Seq::<StatsRow>::empty(),
    {
        let r = Stats {
            count: Vec::new(),
            sum: Slots::new(),
            min: Slots::new(),
            max: Slots::new(),
        };
        assert(r.rows() =~= Seq::<StatsRow>::empty());
        r
    }

    /// Add a row.
    pub fn append(&mut self, count: u64, sum: Option<u64>, min: Option<u64>, max: Option<u64>)
        requires
            old(self).wf(),
        ensures
            final(self).wf(),
            final(self).rows() == old(self).rows().push(StatsRow { count, sum, min, max }),
    {
        let ghost before = self.rows();
        self.count.push(count);
        self.sum.push(sum, 0);
        self.min.push(min, 0);
        self.max.push(max, 0);
        assert(self.rows() =~= before.push(StatsRow { count, sum, min, max }));
    }
}

// ---------------------------------------------------------------------------
// The four point tables.

/// A point of a gauge or a sum. An integer stays one: routing a counter through
/// a double would drop its low bits.
pub struct NumberRow {
    pub head: HeadRow,
    pub int: Option<i64>,
    pub double: Option<u64>,
}

/// Points of gauges and sums.
pub struct NumberTable {
    pub head: DpHead,
    pub int: Slots<i64>,
    pub double: Slots<u64>,
}

impl NumberTable {
    /// The columns are of one length.
    pub closed spec fn wf(&self) -> bool {
        &&& self.head.wf()
        &&& self.head.rows().len() == self.int.slots().len()
        &&& self.int.wf()
        &&& self.double.wf()
        &&& self.double.slots().len() == self.int.slots().len()
    }

    /// The rows.
    pub closed spec fn rows(&self) -> Seq<NumberRow> {
        Seq::new(
            self.int.slots().len(),
            |i: int|
                NumberRow {
                    head: self.head.rows()[i],
                    int: self.int.slots()[i],
                    double: self.double.slots()[i],
                },
        )
    }

    pub fn new() -> (r: NumberTable)
        ensures
            r.wf(),
            r.rows() == Seq::<NumberRow>::empty(),
    {
        let r = NumberTable {
            head: DpHead::new(),
            int: Slots::new(),
            double: Slots::new(),
        };
        assert(r.rows() =~= Seq::<NumberRow>::empty());
        r
    }

    /// Add a row.
    pub fn push(
        &mut self,
        id: u32,
        metric_id: u32,
        start: u64,
        time: u64,
        flags: u32,
        whole: Option<i64>,
        double: Option<u64>,
    )
        requires
            old(self).wf(),
        ensures
            final(self).wf(),
            final(self).rows() == old(self).rows().push(
                NumberRow {
                    head: head_of(id, metric_id, start, time, flags),
                    int: whole,
                    double,
                },
            ),
    {
        let ghost before = self.rows();
        self.head.append(id, metric_id, start, time, flags);
        self.int.push(whole, 0);
        self.double.push(double, 0);
        assert(self.rows() =~= before.push(
                NumberRow {
                    head: head_of(id, metric_id, start, time, flags),
                    int: whole,
                    double,
                },
        ));
    }

    /// The finished table.
    pub fn finish(&self) -> (t: Table)
        requires
            self.wf(),
        ensures
            number_table_of(t, self.rows()),
    {
        let ghost rows = self.rows();
        let mut fields: Vec<Field> = Vec::new();
        fields.push(
            named_field("id", Column { valid: None, data: Data::U32(copy_all(&self.head.id)) }),
        );
        fields.push(
            named_field(
                "metric_id",
                Column { valid: None, data: Data::U32(copy_all(&self.head.metric_id)) },
            ),
        );
        fields.push(named_field("start_time_unix_nano", finish_times(&self.head.start)));
        fields.push(
            named_field(
                "time_unix_nano",
                Column { valid: None, data: Data::Time(copy_all(&self.head.time)) },
            ),
        );
        fields.push(
            named_field(
                "flags",
                Column { valid: None, data: Data::U32(copy_all(&self.head.flags)) },
            ),
        );
        fields.push(named_field("int", finish_i64s(&self.int)));
        fields.push(named_field("double", finish_doubles(&self.double)));
        proof {
            assert(rows.map_values(|r: NumberRow| r.head.id) =~= self.head.id@);
            assert(rows.map_values(|r: NumberRow| r.head.metric_id) =~= self.head.metric_id@);
            assert(rows.map_values(|r: NumberRow| r.head.start) =~= self.head.start.slots());
            assert(rows.map_values(|r: NumberRow| r.head.time) =~= self.head.time@);
            assert(rows.map_values(|r: NumberRow| r.head.flags) =~= self.head.flags@);
            assert(rows.map_values(|r: NumberRow| r.int) =~= self.int.slots());
            assert(rows.map_values(|r: NumberRow| r.double) =~= self.double.slots());
            assert(fields@.map_values(|f: Field| f.name@) =~= seq![
                "id"@,
                "metric_id"@,
                "start_time_unix_nano"@,
                "time_unix_nano"@,
                "flags"@,
                "int"@,
                "double"@,
            ]);
        }
        Table { fields, rows: self.head.id.len() }
    }
}

/// The finished `number_dp` table.
pub open spec fn number_table_of(t: Table, rows: Seq<NumberRow>) -> bool {
    &&& t.wf()
    &&& t.rows == rows.len()
    &&& t.fields@.len() == 7
    &&& t.fields@.map_values(|f: Field| f.name@) == seq![
        "id"@,
        "metric_id"@,
        "start_time_unix_nano"@,
        "time_unix_nano"@,
        "flags"@,
        "int"@,
        "double"@,
    ]
    &&& is_u32s(t.fields@[0].column, rows.map_values(|r: NumberRow| r.head.id))
    &&& is_u32s(t.fields@[1].column, rows.map_values(|r: NumberRow| r.head.metric_id))
    &&& is_time_slots(t.fields@[2].column, rows.map_values(|r: NumberRow| r.head.start))
    &&& is_times(t.fields@[3].column, rows.map_values(|r: NumberRow| r.head.time))
    &&& is_u32s(t.fields@[4].column, rows.map_values(|r: NumberRow| r.head.flags))
    &&& is_i64_slots(t.fields@[5].column, rows.map_values(|r: NumberRow| r.int))
    &&& is_double_slots(t.fields@[6].column, rows.map_values(|r: NumberRow| r.double))
}

/// A point of a histogram. Its boundaries are a row of another table.
pub struct HistRow {
    pub head: HeadRow,
    pub stats: StatsRow,
    pub counts: Seq<u64>,
    pub bounds: Option<u32>,
}

/// Points of histograms.
pub struct HistTable {
    pub head: DpHead,
    pub stats: Stats,
    pub counts: NumberLists,
    pub bounds: Slots<u32>,
}

impl HistTable {
    /// The columns are of one length.
    pub closed spec fn wf(&self) -> bool {
        &&& self.head.wf()
        &&& self.head.rows().len() == self.counts.lists().len()
        &&& self.stats.wf()
        &&& self.stats.rows().len() == self.counts.lists().len()
        &&& self.counts.wf() && self.counts.all_there()
        &&& self.bounds.wf()
        &&& self.bounds.slots().len() == self.counts.lists().len()
    }

    /// The rows.
    pub closed spec fn rows(&self) -> Seq<HistRow> {
        Seq::new(
            self.counts.lists().len(),
            |i: int|
                HistRow {
                    head: self.head.rows()[i],
                    stats: self.stats.rows()[i],
                    counts: self.counts.lists()[i].unwrap(),
                    bounds: self.bounds.slots()[i],
                },
        )
    }

    pub fn new() -> (r: HistTable)
        ensures
            r.wf(),
            r.rows() == Seq::<HistRow>::empty(),
    {
        let r = HistTable {
            head: DpHead::new(),
            stats: Stats::new(),
            counts: NumberLists::new(),
            bounds: Slots::new(),
        };
        assert(r.rows() =~= Seq::<HistRow>::empty());
        r
    }

    /// Add a row.
    pub fn push(
        &mut self,
        id: u32,
        metric_id: u32,
        start: u64,
        time: u64,
        flags: u32,
        count: u64,
        sum: Option<u64>,
        min: Option<u64>,
        max: Option<u64>,
        counts: &Vec<u64>,
        bounds: Option<u32>,
    )
        requires
            old(self).wf(),
        ensures
            final(self).wf(),
            final(self).rows() == old(self).rows().push(
                HistRow {
                    head: head_of(id, metric_id, start, time, flags),
                    stats: StatsRow { count, sum, min, max },
                    counts: counts@,
                    bounds,
                },
            ),
    {
        let ghost before = self.rows();
        self.head.append(id, metric_id, start, time, flags);
        self.stats.append(count, sum, min, max);
        self.counts.push(Some(counts));
        self.bounds.push(bounds, 0);
        assert(self.rows() =~= before.push(
                HistRow {
                    head: head_of(id, metric_id, start, time, flags),
                    stats: StatsRow { count, sum, min, max },
                    counts: counts@,
                    bounds,
                },
        ));
    }

    /// The finished table.
    pub fn finish(&self) -> (t: Table)
        requires
            self.wf(),
        ensures
            hist_table_of(t, self.rows()),
    {
        let ghost rows = self.rows();
        let mut fields: Vec<Field> = Vec::new();
        fields.push(
            named_field("id", Column { valid: None, data: Data::U32(copy_all(&self.head.id)) }),
        );
        fields.push(
            named_field(
                "metric_id",
                Column { valid: None, data: Data::U32(copy_all(&self.head.metric_id)) },
            ),
        );
        fields.push(named_field("start_time_unix_nano", finish_times(&self.head.start)));
        fields.push(
            named_field(
                "time_unix_nano",
                Column { valid: None, data: Data::Time(copy_all(&self.head.time)) },
            ),
        );
        fields.push(
            named_field(
                "flags",
                Column { valid: None, data: Data::U32(copy_all(&self.head.flags)) },
            ),
        );
        fields.push(
            named_field(
                "count",
                Column { valid: None, data: Data::U64(copy_all(&self.stats.count)) },
            ),
        );
        fields.push(named_field("sum", finish_doubles(&self.stats.sum)));
        fields.push(named_field("min", finish_doubles(&self.stats.min)));
        fields.push(named_field("max", finish_doubles(&self.stats.max)));
        fields.push(named_field("bucket_counts", self.counts.finish_u64s()));
        fields.push(named_field("bounds_id", finish_u32s(&self.bounds)));
        proof {
            assert(rows.map_values(|r: HistRow| r.head.id) =~= self.head.id@);
            assert(rows.map_values(|r: HistRow| r.head.metric_id) =~= self.head.metric_id@);
            assert(rows.map_values(|r: HistRow| r.head.start) =~= self.head.start.slots());
            assert(rows.map_values(|r: HistRow| r.head.time) =~= self.head.time@);
            assert(rows.map_values(|r: HistRow| r.head.flags) =~= self.head.flags@);
            assert(rows.map_values(|r: HistRow| r.stats.count) =~= self.stats.count@);
            assert(rows.map_values(|r: HistRow| r.stats.sum) =~= self.stats.sum.slots());
            assert(rows.map_values(|r: HistRow| r.stats.min) =~= self.stats.min.slots());
            assert(rows.map_values(|r: HistRow| r.stats.max) =~= self.stats.max.slots());
            assert(rows.map_values(|r: HistRow| Some(r.counts)) =~= self.counts.lists());
            assert(rows.map_values(|r: HistRow| r.bounds) =~= self.bounds.slots());
            assert(fields@.map_values(|f: Field| f.name@) =~= seq![
                "id"@,
                "metric_id"@,
                "start_time_unix_nano"@,
                "time_unix_nano"@,
                "flags"@,
                "count"@,
                "sum"@,
                "min"@,
                "max"@,
                "bucket_counts"@,
                "bounds_id"@,
            ]);
        }
        Table { fields, rows: self.head.id.len() }
    }
}

/// The finished `hist_dp` table.
pub open spec fn hist_table_of(t: Table, rows: Seq<HistRow>) -> bool {
    &&& t.wf()
    &&& t.rows == rows.len()
    &&& t.fields@.len() == 11
    &&& t.fields@.map_values(|f: Field| f.name@) == seq![
        "id"@,
        "metric_id"@,
        "start_time_unix_nano"@,
        "time_unix_nano"@,
        "flags"@,
        "count"@,
        "sum"@,
        "min"@,
        "max"@,
        "bucket_counts"@,
        "bounds_id"@,
    ]
    &&& is_u32s(t.fields@[0].column, rows.map_values(|r: HistRow| r.head.id))
    &&& is_u32s(t.fields@[1].column, rows.map_values(|r: HistRow| r.head.metric_id))
    &&& is_time_slots(t.fields@[2].column, rows.map_values(|r: HistRow| r.head.start))
    &&& is_times(t.fields@[3].column, rows.map_values(|r: HistRow| r.head.time))
    &&& is_u32s(t.fields@[4].column, rows.map_values(|r: HistRow| r.head.flags))
    &&& is_u64s(t.fields@[5].column, rows.map_values(|r: HistRow| r.stats.count))
    &&& is_double_slots(t.fields@[6].column, rows.map_values(|r: HistRow| r.stats.sum))
    &&& is_double_slots(t.fields@[7].column, rows.map_values(|r: HistRow| r.stats.min))
    &&& is_double_slots(t.fields@[8].column, rows.map_values(|r: HistRow| r.stats.max))
    &&& is_u64_list_slots(t.fields@[9].column, rows.map_values(|r: HistRow| Some(r.counts)))
    &&& is_u32_slots(t.fields@[10].column, rows.map_values(|r: HistRow| r.bounds))
}

/// A point of an exponential histogram. A side that was not recorded is null,
/// not an empty list.
pub struct ExpRow {
    pub head: HeadRow,
    pub stats: StatsRow,
    pub scale: i32,
    pub zero_count: u64,
    pub zero_threshold: u64,
    pub pos_offset: i32,
    pub pos: Option<Seq<u64>>,
    pub neg_offset: i32,
    pub neg: Option<Seq<u64>>,
}

/// Points of exponential histograms.
pub struct ExpTable {
    pub head: DpHead,
    pub stats: Stats,
    pub scale: Vec<i32>,
    pub zero_count: Vec<u64>,
    pub zero_threshold: Vec<u64>,
    pub pos_offset: Vec<i32>,
    pub pos: NumberLists,
    pub neg_offset: Vec<i32>,
    pub neg: NumberLists,
}

impl ExpTable {
    /// The columns are of one length.
    pub closed spec fn wf(&self) -> bool {
        &&& self.head.wf()
        &&& self.head.rows().len() == self.scale@.len()
        &&& self.stats.wf()
        &&& self.stats.rows().len() == self.scale@.len()
        &&& self.pos.wf()
        &&& self.neg.wf()
        &&& self.zero_count@.len() == self.scale@.len()
        &&& self.zero_threshold@.len() == self.scale@.len()
        &&& self.pos_offset@.len() == self.scale@.len()
        &&& self.pos.lists().len() == self.scale@.len()
        &&& self.neg_offset@.len() == self.scale@.len()
        &&& self.neg.lists().len() == self.scale@.len()
    }

    /// The rows.
    pub closed spec fn rows(&self) -> Seq<ExpRow> {
        Seq::new(
            self.scale@.len(),
            |i: int|
                ExpRow {
                    head: self.head.rows()[i],
                    stats: self.stats.rows()[i],
                    scale: self.scale@[i],
                    zero_count: self.zero_count@[i],
                    zero_threshold: self.zero_threshold@[i],
                    pos_offset: self.pos_offset@[i],
                    pos: self.pos.lists()[i],
                    neg_offset: self.neg_offset@[i],
                    neg: self.neg.lists()[i],
                },
        )
    }

    pub fn new() -> (r: ExpTable)
        ensures
            r.wf(),
            r.rows() == Seq::<ExpRow>::empty(),
    {
        let r = ExpTable {
            head: DpHead::new(),
            stats: Stats::new(),
            scale: Vec::new(),
            zero_count: Vec::new(),
            zero_threshold: Vec::new(),
            pos_offset: Vec::new(),
            pos: NumberLists::new(),
            neg_offset: Vec::new(),
            neg: NumberLists::new(),
        };
        assert(r.rows() =~= Seq::<ExpRow>::empty());
        r
    }

    /// Add a row.
    pub fn push(
        &mut self,
        id: u32,
        metric_id: u32,
        start: u64,
        time: u64,
        flags: u32,
        count: u64,
        sum: Option<u64>,
        min: Option<u64>,
        max: Option<u64>,
        scale: i32,
        zero_count: u64,
        zero_threshold: u64,
        pos_offset: i32,
        pos: Option<&Vec<u64>>,
        neg_offset: i32,
        neg: Option<&Vec<u64>>,
    )
        requires
            old(self).wf(),
        ensures
            final(self).wf(),
            final(self).rows() == old(self).rows().push(
                ExpRow {
                    head: head_of(id, metric_id, start, time, flags),
                    stats: StatsRow { count, sum, min, max },
                    scale,
                    zero_count,
                    zero_threshold,
                    pos_offset,
                    pos: list_view(pos),
                    neg_offset,
                    neg: list_view(neg),
                },
            ),
    {
        let ghost before = self.rows();
        self.head.append(id, metric_id, start, time, flags);
        self.stats.append(count, sum, min, max);
        self.scale.push(scale);
        self.zero_count.push(zero_count);
        self.zero_threshold.push(zero_threshold);
        self.pos_offset.push(pos_offset);
        self.pos.push(pos);
        self.neg_offset.push(neg_offset);
        self.neg.push(neg);
        assert(self.rows() =~= before.push(
                ExpRow {
                    head: head_of(id, metric_id, start, time, flags),
                    stats: StatsRow { count, sum, min, max },
                    scale,
                    zero_count,
                    zero_threshold,
                    pos_offset,
                    pos: list_view(pos),
                    neg_offset,
                    neg: list_view(neg),
                },
        ));
    }

    /// The finished table.
    pub fn finish(&self) -> (t: Table)
        requires
            self.wf(),
        ensures
            exp_table_of(t, self.rows()),
    {
        let ghost rows = self.rows();
        let mut fields: Vec<Field> = Vec::new();
        fields.push(
            named_field("id", Column { valid: None, data: Data::U32(copy_all(&self.head.id)) }),
        );
        fields.push(
            named_field(
                "metric_id",
                Column { valid: None, data: Data::U32(copy_all(&self.head.metric_id)) },
            ),
        );
        fields.push(named_field("start_time_unix_nano", finish_times(&self.head.start)));
        fields.push(
            named_field(
                "time_unix_nano",
                Column { valid: None, data: Data::Time(copy_all(&self.head.time)) },
            ),
        );
        fields.push(
            named_field(
                "flags",
                Column { valid: None, data: Data::U32(copy_all(&self.head.flags)) },
            ),
        );
        fields.push(
            named_field(
                "count",
                Column { valid: None, data: Data::U64(copy_all(&self.stats.count)) },
            ),
        );
        fields.push(named_field("sum", finish_doubles(&self.stats.sum)));
        fields.push(named_field("min", finish_doubles(&self.stats.min)));
        fields.push(named_field("max", finish_doubles(&self.stats.max)));
        fields.push(
            named_field("scale", Column { valid: None, data: Data::I32(copy_all(&self.scale)) }),
        );
        fields.push(
            named_field(
                "zero_count",
                Column { valid: None, data: Data::U64(copy_all(&self.zero_count)) },
            ),
        );
        fields.push(
            named_field(
                "zero_threshold",
                Column { valid: None, data: Data::Double(copy_all(&self.zero_threshold)) },
            ),
        );
        fields.push(
            named_field(
                "positive_offset",
                Column { valid: None, data: Data::I32(copy_all(&self.pos_offset)) },
            ),
        );
        fields.push(named_field("positive_counts", self.pos.finish_u64s()));
        fields.push(
            named_field(
                "negative_offset",
                Column { valid: None, data: Data::I32(copy_all(&self.neg_offset)) },
            ),
        );
        fields.push(named_field("negative_counts", self.neg.finish_u64s()));
        proof {
            assert(rows.map_values(|r: ExpRow| r.head.id) =~= self.head.id@);
            assert(rows.map_values(|r: ExpRow| r.head.metric_id) =~= self.head.metric_id@);
            assert(rows.map_values(|r: ExpRow| r.head.start) =~= self.head.start.slots());
            assert(rows.map_values(|r: ExpRow| r.head.time) =~= self.head.time@);
            assert(rows.map_values(|r: ExpRow| r.head.flags) =~= self.head.flags@);
            assert(rows.map_values(|r: ExpRow| r.stats.count) =~= self.stats.count@);
            assert(rows.map_values(|r: ExpRow| r.stats.sum) =~= self.stats.sum.slots());
            assert(rows.map_values(|r: ExpRow| r.stats.min) =~= self.stats.min.slots());
            assert(rows.map_values(|r: ExpRow| r.stats.max) =~= self.stats.max.slots());
            assert(rows.map_values(|r: ExpRow| r.scale) =~= self.scale@);
            assert(rows.map_values(|r: ExpRow| r.zero_count) =~= self.zero_count@);
            assert(rows.map_values(|r: ExpRow| r.zero_threshold) =~= self.zero_threshold@);
            assert(rows.map_values(|r: ExpRow| r.pos_offset) =~= self.pos_offset@);
            assert(rows.map_values(|r: ExpRow| r.pos) =~= self.pos.lists());
            assert(rows.map_values(|r: ExpRow| r.neg_offset) =~= self.neg_offset@);
            assert(rows.map_values(|r: ExpRow| r.neg) =~= self.neg.lists());
            assert(fields@.map_values(|f: Field| f.name@) =~= seq![
                "id"@,
                "metric_id"@,
                "start_time_unix_nano"@,
                "time_unix_nano"@,
                "flags"@,
                "count"@,
                "sum"@,
                "min"@,
                "max"@,
                "scale"@,
                "zero_count"@,
                "zero_threshold"@,
                "positive_offset"@,
                "positive_counts"@,
                "negative_offset"@,
                "negative_counts"@,
            ]);
        }
        Table { fields, rows: self.head.id.len() }
    }
}

/// The finished `exp_hist_dp` table.
pub open spec fn exp_table_of(t: Table, rows: Seq<ExpRow>) -> bool {
    &&& t.wf()
    &&& t.rows == rows.len()
    &&& t.fields@.len() == 16
    &&& t.fields@.map_values(|f: Field| f.name@) == seq![
        "id"@,
        "metric_id"@,
        "start_time_unix_nano"@,
        "time_unix_nano"@,
        "flags"@,
        "count"@,
        "sum"@,
        "min"@,
        "max"@,
        "scale"@,
        "zero_count"@,
        "zero_threshold"@,
        "positive_offset"@,
        "positive_counts"@,
        "negative_offset"@,
        "negative_counts"@,
    ]
    &&& is_u32s(t.fields@[0].column, rows.map_values(|r: ExpRow| r.head.id))
    &&& is_u32s(t.fields@[1].column, rows.map_values(|r: ExpRow| r.head.metric_id))
    &&& is_time_slots(t.fields@[2].column, rows.map_values(|r: ExpRow| r.head.start))
    &&& is_times(t.fields@[3].column, rows.map_values(|r: ExpRow| r.head.time))
    &&& is_u32s(t.fields@[4].column, rows.map_values(|r: ExpRow| r.head.flags))
    &&& is_u64s(t.fields@[5].column, rows.map_values(|r: ExpRow| r.stats.count))
    &&& is_double_slots(t.fields@[6].column, rows.map_values(|r: ExpRow| r.stats.sum))
    &&& is_double_slots(t.fields@[7].column, rows.map_values(|r: ExpRow| r.stats.min))
    &&& is_double_slots(t.fields@[8].column, rows.map_values(|r: ExpRow| r.stats.max))
    &&& is_i32s(t.fields@[9].column, rows.map_values(|r: ExpRow| r.scale))
    &&& is_u64s(t.fields@[10].column, rows.map_values(|r: ExpRow| r.zero_count))
    &&& is_doubles(t.fields@[11].column, rows.map_values(|r: ExpRow| r.zero_threshold))
    &&& is_i32s(t.fields@[12].column, rows.map_values(|r: ExpRow| r.pos_offset))
    &&& is_u64_list_slots(t.fields@[13].column, rows.map_values(|r: ExpRow| r.pos))
    &&& is_i32s(t.fields@[14].column, rows.map_values(|r: ExpRow| r.neg_offset))
    &&& is_u64_list_slots(t.fields@[15].column, rows.map_values(|r: ExpRow| r.neg))
}

/// A point of a summary: quantiles and values are two parallel lists.
pub struct SummRow {
    pub head: HeadRow,
    pub count: u64,
    pub sum: u64,
    pub quantile: Seq<u64>,
    pub value: Seq<u64>,
}

/// Points of summaries.
pub struct SummTable {
    pub head: DpHead,
    pub count: Vec<u64>,
    pub sum: Vec<u64>,
    pub quantile: NumberLists,
    pub value: NumberLists,
}

impl SummTable {
    /// The columns are of one length.
    pub closed spec fn wf(&self) -> bool {
        &&& self.head.wf()
        &&& self.head.rows().len() == self.count@.len()
        &&& self.quantile.wf() && self.quantile.all_there()
        &&& self.value.wf() && self.value.all_there()
        &&& self.sum@.len() == self.count@.len()
        &&& self.quantile.lists().len() == self.count@.len()
        &&& self.value.lists().len() == self.count@.len()
    }

    /// The rows.
    pub closed spec fn rows(&self) -> Seq<SummRow> {
        Seq::new(
            self.count@.len(),
            |i: int|
                SummRow {
                    head: self.head.rows()[i],
                    count: self.count@[i],
                    sum: self.sum@[i],
                    quantile: self.quantile.lists()[i].unwrap(),
                    value: self.value.lists()[i].unwrap(),
                },
        )
    }

    pub fn new() -> (r: SummTable)
        ensures
            r.wf(),
            r.rows() == Seq::<SummRow>::empty(),
    {
        let r = SummTable {
            head: DpHead::new(),
            count: Vec::new(),
            sum: Vec::new(),
            quantile: NumberLists::new(),
            value: NumberLists::new(),
        };
        assert(r.rows() =~= Seq::<SummRow>::empty());
        r
    }

    /// Add a row.
    pub fn push(
        &mut self,
        id: u32,
        metric_id: u32,
        start: u64,
        time: u64,
        flags: u32,
        count: u64,
        sum: u64,
        quantile: &Vec<u64>,
        value: &Vec<u64>,
    )
        requires
            old(self).wf(),
        ensures
            final(self).wf(),
            final(self).rows() == old(self).rows().push(
                SummRow {
                    head: head_of(id, metric_id, start, time, flags),
                    count,
                    sum,
                    quantile: quantile@,
                    value: value@,
                },
            ),
    {
        let ghost before = self.rows();
        self.head.append(id, metric_id, start, time, flags);
        self.count.push(count);
        self.sum.push(sum);
        self.quantile.push(Some(quantile));
        self.value.push(Some(value));
        assert(self.rows() =~= before.push(
                SummRow {
                    head: head_of(id, metric_id, start, time, flags),
                    count,
                    sum,
                    quantile: quantile@,
                    value: value@,
                },
        ));
    }

    /// The finished table.
    pub fn finish(&self) -> (t: Table)
        requires
            self.wf(),
        ensures
            summary_table_of(t, self.rows()),
    {
        let ghost rows = self.rows();
        let mut fields: Vec<Field> = Vec::new();
        fields.push(
            named_field("id", Column { valid: None, data: Data::U32(copy_all(&self.head.id)) }),
        );
        fields.push(
            named_field(
                "metric_id",
                Column { valid: None, data: Data::U32(copy_all(&self.head.metric_id)) },
            ),
        );
        fields.push(named_field("start_time_unix_nano", finish_times(&self.head.start)));
        fields.push(
            named_field(
                "time_unix_nano",
                Column { valid: None, data: Data::Time(copy_all(&self.head.time)) },
            ),
        );
        fields.push(
            named_field(
                "flags",
                Column { valid: None, data: Data::U32(copy_all(&self.head.flags)) },
            ),
        );
        fields.push(
            named_field("count", Column { valid: None, data: Data::U64(copy_all(&self.count)) }),
        );
        fields.push(
            named_field("sum", Column { valid: None, data: Data::Double(copy_all(&self.sum)) }),
        );
        fields.push(named_field("quantile", self.quantile.finish_doubles()));
        fields.push(named_field("value", self.value.finish_doubles()));
        proof {
            assert(rows.map_values(|r: SummRow| r.head.id) =~= self.head.id@);
            assert(rows.map_values(|r: SummRow| r.head.metric_id) =~= self.head.metric_id@);
            assert(rows.map_values(|r: SummRow| r.head.start) =~= self.head.start.slots());
            assert(rows.map_values(|r: SummRow| r.head.time) =~= self.head.time@);
            assert(rows.map_values(|r: SummRow| r.head.flags) =~= self.head.flags@);
            assert(rows.map_values(|r: SummRow| r.count) =~= self.count@);
            assert(rows.map_values(|r: SummRow| r.sum) =~= self.sum@);
            assert(rows.map_values(|r: SummRow| Some(r.quantile)) =~= self.quantile.lists());
            assert(rows.map_values(|r: SummRow| Some(r.value)) =~= self.value.lists());
            assert(fields@.map_values(|f: Field| f.name@) =~= seq![
                "id"@,
                "metric_id"@,
                "start_time_unix_nano"@,
                "time_unix_nano"@,
                "flags"@,
                "count"@,
                "sum"@,
                "quantile"@,
                "value"@,
            ]);
        }
        Table { fields, rows: self.head.id.len() }
    }
}

/// The finished `summary_dp` table.
pub open spec fn summary_table_of(t: Table, rows: Seq<SummRow>) -> bool {
    &&& t.wf()
    &&& t.rows == rows.len()
    &&& t.fields@.len() == 9
    &&& t.fields@.map_values(|f: Field| f.name@) == seq![
        "id"@,
        "metric_id"@,
        "start_time_unix_nano"@,
        "time_unix_nano"@,
        "flags"@,
        "count"@,
        "sum"@,
        "quantile"@,
        "value"@,
    ]
    &&& is_u32s(t.fields@[0].column, rows.map_values(|r: SummRow| r.head.id))
    &&& is_u32s(t.fields@[1].column, rows.map_values(|r: SummRow| r.head.metric_id))
    &&& is_time_slots(t.fields@[2].column, rows.map_values(|r: SummRow| r.head.start))
    &&& is_times(t.fields@[3].column, rows.map_values(|r: SummRow| r.head.time))
    &&& is_u32s(t.fields@[4].column, rows.map_values(|r: SummRow| r.head.flags))
    &&& is_u64s(t.fields@[5].column, rows.map_values(|r: SummRow| r.count))
    &&& is_doubles(t.fields@[6].column, rows.map_values(|r: SummRow| r.sum))
    &&& is_double_list_slots(t.fields@[7].column, rows.map_values(|r: SummRow| Some(r.quantile)))
    &&& is_double_list_slots(t.fields@[8].column, rows.map_values(|r: SummRow| Some(r.value)))
}

// ---------------------------------------------------------------------------
// Bucket boundaries.

/// Lists of 64-bit numbers, by what they hold.
pub open spec fn list_views(v: Seq<Vec<u64>>) -> Seq<Seq<u64>> {
    v.map_values(|b: Vec<u64>| b@)
}

proof fn lemma_words_injective(a: Seq<u64>, b: Seq<u64>)
    requires
        word_bytes(a) == word_bytes(b),
    ensures
        a == b,
{
    lemma_word_bytes(a, 0);
    lemma_word_bytes(b, 0);
    assert forall|i: int| 0 <= i < a.len() implies a[i] == b[i] by {
        lemma_word_bytes(a, i);
        lemma_word_bytes(b, i);
    }
    assert(a =~= b);
}

/// The distinct bucket boundaries of a block's histograms. Two lists share a
/// row only if they are bit-identical: a missed match costs space, a wrong one
/// would mislabel every bucket.
pub struct BoundsTable {
    pub index: ByteIndex,
    pub values: Vec<Vec<u64>>,
}

/// The finished `hist_bounds` table.
pub open spec fn bounds_table_of(t: Table, rows: Seq<Seq<u64>>) -> bool {
    &&& t.wf()
    &&& t.rows == rows.len()
    &&& t.fields@.len() == 2
    &&& t.fields@[0].name@ == "id"@
    &&& is_u32s(t.fields@[0].column, counting(rows.len()))
    &&& t.fields@[1].name@ == "bounds"@
    &&& is_double_list_slots(t.fields@[1].column, rows.map_values(|r: Seq<u64>| Some(r)))
}

impl BoundsTable {
    pub closed spec fn wf(&self) -> bool {
        &&& self.index.wf()
        &&& self.index@.len() == self.values@.len()
        &&& forall|i: int|
            0 <= i < self.values@.len() ==> #[trigger] self.index@[i] == word_bytes(self.values@[i]@)
    }

    /// The lists, in order.
    pub closed spec fn rows(&self) -> Seq<Seq<u64>> {
        list_views(self.values@)
    }

    pub fn new() -> (r: BoundsTable)
        ensures
            r.wf(),
            r.rows() == Seq::<Seq<u64>>::empty(),
    {
        let r = BoundsTable { index: ByteIndex::new(), values: Vec::new() };
        assert(r.rows() =~= Seq::<Seq<u64>>::empty());
        r
    }

    /// The number of a list, and whether it was new.
    pub fn intern(&mut self, b: &Vec<u64>) -> (r: (u32, bool))
        requires
            old(self).wf(),
            old(self).rows().len() < u32::MAX,
        ensures
            final(self).wf(),
            r == bounds_number(old(self).rows(), b@),
            final(self).rows() == with_bounds(old(self).rows(), b@),
    {
        let ghost before = *self;
        let key = bytes_of_words(b);
        if let Some(i) = self.index.find(key.as_slice()) {
            proof {
                lemma_words_injective(self.values@[i as int]@, b@);
                let rows = self.rows();
                assert(rows[i as int] == b@);
                let k = rows.index_of(b@);
                assert(rows[k] == b@);
                self.index.lemma_distinct();
                assert(self.index@[k] == self.index@[i as int]);
            }
            return (i as u32, false);
        }
        let n: usize = self.values.len();
        proof {
            if self.rows().contains(b@) {
                let k = self.rows().index_of(b@);
                assert(self.values@[k]@ == b@);
                assert(self.index@[k] == key@);
                assert(self.index@.contains(key@));
            }
        }
        self.index.push(key);
        self.values.push(copy_all(b));
        proof {
            assert(self.rows() =~= before.rows().push(b@));
            assert forall|i: int| 0 <= i < self.values@.len() implies #[trigger] self.index@[i]
                == word_bytes(self.values@[i]@) by {
                if i < before.values@.len() {
                    assert(self.index@[i] == before.index@[i]);
                }
            }
        }
        (n as u32, true)
    }

    /// The finished table.
    pub fn finish(&self) -> (t: Table)
        requires
            self.wf(),
            self.rows().len() <= u32::MAX,
        ensures
            bounds_table_of(t, self.rows()),
    {
        let n: usize = self.values.len();
        let mut lists = NumberLists::new();
        let mut i: usize = 0;
        while i < n
            invariant
                i <= n,
                n == self.values@.len(),
                lists.wf(),
                lists.lists() == self.rows().take(i as int).map_values(|r: Seq<u64>| Some(r)),
            decreases n - i,
        {
            lists.push(Some(&self.values[i]));
            assert(lists.lists() =~= self.rows().take(i + 1).map_values(|r: Seq<u64>| Some(r)));
            i = i + 1;
        }
        assert(self.rows().take(n as int) =~= self.rows());
        let mut fields: Vec<Field> = Vec::new();
        fields.push(
            named_field("id", Column { valid: None, data: Data::U32(count_up(n as u32)) }),
        );
        fields.push(named_field("bounds", lists.finish_doubles()));
        Table { fields, rows: n }
    }
}

/// The number of a list among those before, and whether it is new.
pub open spec fn bounds_number(rows: Seq<Seq<u64>>, b: Seq<u64>) -> (u32, bool) {
    if rows.contains(b) {
        (rows.index_of(b) as u32, false)
    } else {
        (rows.len() as u32, true)
    }
}

/// The lists with one more, where it is new.
pub open spec fn with_bounds(rows: Seq<Seq<u64>>, b: Seq<u64>) -> Seq<Seq<u64>> {
    if rows.contains(b) {
        rows
    } else {
        rows.push(b)
    }
}

// ---------------------------------------------------------------------------
// Exemplars and descriptors.

/// An exemplar and the point it belongs to.
pub struct ExemplarRow {
    pub parent: u32,
    pub time: i64,
    pub int: Option<i64>,
    pub double: Option<u64>,
    pub trace: Option<Seq<u8>>,
    pub span: Option<Seq<u8>>,
}

/// Exemplars.
pub struct ExemplarTable {
    pub parent: Vec<u32>,
    pub time: Vec<i64>,
    pub int: Slots<i64>,
    pub double: Slots<u64>,
    pub trace: FixedSlots,
    pub span: FixedSlots,
}

impl ExemplarTable {
    /// The columns are of one length.
    pub closed spec fn wf(&self) -> bool {
        &&& self.int.wf()
        &&& self.double.wf()
        &&& self.trace.wf() && self.trace.width == 16
        &&& self.span.wf() && self.span.width == 8
        &&& self.time@.len() == self.parent@.len()
        &&& self.int.slots().len() == self.parent@.len()
        &&& self.double.slots().len() == self.parent@.len()
        &&& self.trace.slots().len() == self.parent@.len()
        &&& self.span.slots().len() == self.parent@.len()
    }

    /// The rows.
    pub closed spec fn rows(&self) -> Seq<ExemplarRow> {
        Seq::new(
            self.parent@.len(),
            |i: int|
                ExemplarRow {
                    parent: self.parent@[i],
                    time: self.time@[i],
                    int: self.int.slots()[i],
                    double: self.double.slots()[i],
                    trace: self.trace.slots()[i],
                    span: self.span.slots()[i],
                },
        )
    }

    pub fn new() -> (r: ExemplarTable)
        ensures
            r.wf(),
            r.rows() == Seq::<ExemplarRow>::empty(),
    {
        let r = ExemplarTable {
            parent: Vec::new(),
            time: Vec::new(),
            int: Slots::new(),
            double: Slots::new(),
            trace: FixedSlots::new(16),
            span: FixedSlots::new(8),
        };
        assert(r.rows() =~= Seq::<ExemplarRow>::empty());
        r
    }

    /// Add a row.
    pub fn push(
        &mut self,
        parent: u32,
        time: i64,
        whole: Option<i64>,
        double: Option<u64>,
        trace: &Vec<u8>,
        span: &Vec<u8>,
    )
        requires
            old(self).wf(),
        ensures
            final(self).wf(),
            final(self).rows() == old(self).rows().push(
                ExemplarRow {
                    parent,
                    time,
                    int: whole,
                    double,
                    trace: of_width(trace@, 16),
                    span: of_width(span@, 8),
                },
            ),
    {
        let ghost before = self.rows();
        self.parent.push(parent);
        self.time.push(time);
        self.int.push(whole, 0);
        self.double.push(double, 0);
        self.trace.append_fixed(trace);
        self.span.append_fixed(span);
        assert(self.rows() =~= before.push(
                ExemplarRow {
                    parent,
                    time,
                    int: whole,
                    double,
                    trace: of_width(trace@, 16),
                    span: of_width(span@, 8),
                },
        ));
    }

    /// The finished table.
    pub fn finish(&self) -> (t: Table)
        requires
            self.wf(),
            self.rows().len() <= u32::MAX,
        ensures
            exemplar_table_of(t, self.rows()),
    {
        let ghost rows = self.rows();
        let mut fields: Vec<Field> = Vec::new();
        let n: usize = self.parent.len();
        fields.push(
            named_field("id", Column { valid: None, data: Data::U32(count_up(n as u32)) }),
        );
        fields.push(
            named_field(
                "parent_id",
                Column { valid: None, data: Data::U32(copy_all(&self.parent)) },
            ),
        );
        fields.push(
            named_field(
                "time_unix_nano",
                Column { valid: None, data: Data::Time(copy_all(&self.time)) },
            ),
        );
        fields.push(named_field("int", finish_i64s(&self.int)));
        fields.push(named_field("double", finish_doubles(&self.double)));
        fields.push(named_field("trace_id", finish_ids(&self.trace)));
        fields.push(named_field("span_id", finish_ids(&self.span)));
        proof {
            assert(rows.map_values(|r: ExemplarRow| r.parent) =~= self.parent@);
            assert(rows.map_values(|r: ExemplarRow| r.time) =~= self.time@);
            assert(rows.map_values(|r: ExemplarRow| r.int) =~= self.int.slots());
            assert(rows.map_values(|r: ExemplarRow| r.double) =~= self.double.slots());
            assert(rows.map_values(|r: ExemplarRow| r.trace) =~= self.trace.slots());
            assert(rows.map_values(|r: ExemplarRow| r.span) =~= self.span.slots());
            assert(fields@.map_values(|f: Field| f.name@) =~= seq![
                "id"@,
                "parent_id"@,
                "time_unix_nano"@,
                "int"@,
                "double"@,
                "trace_id"@,
                "span_id"@,
            ]);
        }
        Table { fields, rows: n }
    }
}

/// The finished `exemplars` table.
pub open spec fn exemplar_table_of(t: Table, rows: Seq<ExemplarRow>) -> bool {
    &&& t.wf()
    &&& t.rows == rows.len()
    &&& t.fields@.len() == 7
    &&& t.fields@.map_values(|f: Field| f.name@) == seq![
        "id"@,
        "parent_id"@,
        "time_unix_nano"@,
        "int"@,
        "double"@,
        "trace_id"@,
        "span_id"@,
    ]
    &&& is_u32s(t.fields@[0].column, counting(rows.len()))
    &&& is_u32s(t.fields@[1].column, rows.map_values(|r: ExemplarRow| r.parent))
    &&& is_times(t.fields@[2].column, rows.map_values(|r: ExemplarRow| r.time))
    &&& is_i64_slots(t.fields@[3].column, rows.map_values(|r: ExemplarRow| r.int))
    &&& is_double_slots(t.fields@[4].column, rows.map_values(|r: ExemplarRow| r.double))
    &&& is_fixed_slots(t.fields@[5].column, rows.map_values(|r: ExemplarRow| r.trace), 16)
    &&& is_fixed_slots(t.fields@[6].column, rows.map_values(|r: ExemplarRow| r.span), 8)
}

/// A metric descriptor, but for its name and unit. Temporality and monotonicity
/// stand here and not on every point.
pub struct MetricRow {
    pub description: Option<Seq<char>>,
    pub kind: u8,
    pub temporality: u8,
    pub monotonic: bool,
    pub resource_id: u16,
    pub scope_id: u16,
}

/// Metric descriptors, but for their two dictionary columns.
pub struct DescriptorTable {
    pub description: TextSlots,
    pub kind: Vec<u8>,
    pub temporality: Vec<u8>,
    pub monotonic: Vec<bool>,
    pub resource_id: Vec<u16>,
    pub scope_id: Vec<u16>,
}

impl DescriptorTable {
    /// The columns are of one length.
    pub closed spec fn wf(&self) -> bool {
        &&& self.description.wf()
        &&& self.kind@.len() == self.description.slots().len()
        &&& self.temporality@.len() == self.description.slots().len()
        &&& self.monotonic@.len() == self.description.slots().len()
        &&& self.resource_id@.len() == self.description.slots().len()
        &&& self.scope_id@.len() == self.description.slots().len()
    }

    /// The rows.
    pub closed spec fn rows(&self) -> Seq<MetricRow> {
        Seq::new(
            self.description.slots().len(),
            |i: int|
                MetricRow {
                    description: self.description.slots()[i],
                    kind: self.kind@[i],
                    temporality: self.temporality@[i],
                    monotonic: self.monotonic@[i],
                    resource_id: self.resource_id@[i],
                    scope_id: self.scope_id@[i],
                },
        )
    }

    pub fn new() -> (r: DescriptorTable)
        ensures
            r.wf(),
            r.rows() == Seq::<MetricRow>::empty(),
    {
        let r = DescriptorTable {
            description: TextSlots::new(),
            kind: Vec::new(),
            temporality: Vec::new(),
            monotonic: Vec::new(),
            resource_id: Vec::new(),
            scope_id: Vec::new(),
        };
        assert(r.rows() =~= Seq::<MetricRow>::empty());
        r
    }

    /// Add a row.
    pub fn push(
        &mut self,
        description: Option<&String>,
        kind: u8,
        temporality: u8,
        monotonic: bool,
        resource_id: u16,
        scope_id: u16,
    )
        requires
            old(self).wf(),
        ensures
            final(self).wf(),
            final(self).rows() == old(self).rows().push(
                MetricRow {
                    description: text_view(description),
                    kind,
                    temporality,
                    monotonic,
                    resource_id,
                    scope_id,
                },
            ),
    {
        let ghost before = self.rows();
        self.description.push(description);
        self.kind.push(kind);
        self.temporality.push(temporality);
        self.monotonic.push(monotonic);
        self.resource_id.push(resource_id);
        self.scope_id.push(scope_id);
        assert(self.rows() =~= before.push(
                MetricRow {
                    description: text_view(description),
                    kind,
                    temporality,
                    monotonic,
                    resource_id,
                    scope_id,
                },
        ));
    }
}

impl DescriptorTable {
    /// How many descriptors there are.
    pub fn len(&self) -> (n: usize)
        requires
            self.wf(),
        ensures
            n == self.rows().len(),
    {
        self.kind.len()
    }

    /// The bytes of the descriptions, wrapped at the width of a word.
    pub fn heap(&self) -> (n: usize)
        requires
            self.wf(),
        ensures
            n == wrapped_count(
                slot_text_bytes(self.rows().map_values(|r: MetricRow| r.description)),
            ),
    {
        assert(self.rows().map_values(|r: MetricRow| r.description) =~= self.description.slots());
        self.description.heap
    }

    /// The finished table, given its two dictionary columns.
    pub fn finish_with(&self, name: &DictColumn, unit: &DictColumn) -> (t: Table)
        requires
            self.wf(),
            self.rows().len() <= u32::MAX,
            name.wf(),
            name.slots().len() == self.rows().len(),
            unit.wf(),
            unit.slots().len() == self.rows().len(),
        ensures
            metrics_table_of(t, self.rows(), name.slots(), unit.slots()),
    {
        let ghost rows = self.rows();
        let n: usize = self.kind.len();
        let mut fields: Vec<Field> = Vec::new();
        fields.push(
            named_field("id", Column { valid: None, data: Data::U32(count_up(n as u32)) }),
        );
        fields.push(named_field("name", name.finish()));
        fields.push(named_field("description", finish_texts(&self.description)));
        fields.push(named_field("unit", unit.finish()));
        fields.push(
            named_field("kind", Column { valid: None, data: Data::U8(copy_all(&self.kind)) }),
        );
        fields.push(
            named_field(
                "temporality",
                Column { valid: None, data: Data::U8(copy_all(&self.temporality)) },
            ),
        );
        fields.push(
            named_field(
                "is_monotonic",
                Column { valid: None, data: Data::Bool(copy_all(&self.monotonic)) },
            ),
        );
        fields.push(
            named_field(
                "resource_id",
                Column { valid: None, data: Data::U16(copy_all(&self.resource_id)) },
            ),
        );
        fields.push(
            named_field(
                "scope_id",
                Column { valid: None, data: Data::U16(copy_all(&self.scope_id)) },
            ),
        );
        proof {
            assert(rows.map_values(|r: MetricRow| r.description) =~= self.description.slots());
            assert(rows.map_values(|r: MetricRow| r.kind) =~= self.kind@);
            assert(rows.map_values(|r: MetricRow| r.temporality) =~= self.temporality@);
            assert(rows.map_values(|r: MetricRow| r.monotonic) =~= self.monotonic@);
            assert(rows.map_values(|r: MetricRow| r.resource_id) =~= self.resource_id@);
            assert(rows.map_values(|r: MetricRow| r.scope_id) =~= self.scope_id@);
            assert(fields@.map_values(|f: Field| f.name@) =~= seq![
                "id"@,
                "name"@,
                "description"@,
                "unit"@,
                "kind"@,
                "temporality"@,
                "is_monotonic"@,
                "resource_id"@,
                "scope_id"@,
            ]);
        }
        Table { fields, rows: n }
    }
}

/// The finished `metrics` table.
pub open spec fn metrics_table_of(
    t: Table,
    rows: Seq<MetricRow>,
    names: Seq<Option<Seq<char>>>,
    units: Seq<Option<Seq<char>>>,
) -> bool {
    &&& t.wf()
    &&& t.rows == rows.len()
    &&& t.fields@.len() == 9
    &&& t.fields@.map_values(|f: Field| f.name@) == seq![
        "id"@,
        "name"@,
        "description"@,
        "unit"@,
        "kind"@,
        "temporality"@,
        "is_monotonic"@,
        "resource_id"@,
        "scope_id"@,
    ]
    &&& is_u32s(t.fields@[0].column, counting(rows.len()))
    &&& is_dict(t.fields@[1].column, names)
    &&& is_text_slots(t.fields@[2].column, rows.map_values(|r: MetricRow| r.description))
    &&& is_dict(t.fields@[3].column, units)
    &&& is_u8s(t.fields@[4].column, rows.map_values(|r: MetricRow| r.kind))
    &&& is_u8s(t.fields@[5].column, rows.map_values(|r: MetricRow| r.temporality))
    &&& is_bools(t.fields@[6].column, rows.map_values(|r: MetricRow| r.monotonic))
    &&& is_u16s(t.fields@[7].column, rows.map_values(|r: MetricRow| r.resource_id))
    &&& is_u16s(t.fields@[8].column, rows.map_values(|r: MetricRow| r.scope_id))
}

} // verus!
