//! Log records, accumulated across many export requests and sealed into a
//! block once.

use crate::attrs::{
    add_counts, appended, attrs_table_of, fits_dict, heap_of, is_dict, keys_in, AttrRow,
    AttrsBuilder, DictColumn,
};
use crate::bloom::{build, file_of, filter_of, keys_of, TRACE_IDX};
use crate::columns::{
    copy_all, count_up, counting, finish_bytes, finish_ids, finish_texts, finish_times, firsts,
    is_byte_slots, is_fixed_slots, is_i32s, is_text_slots, is_time_slots, is_times, is_u16s,
    is_u32s, lemma_slot_bytes, lemma_small_count, mul_count, of_width, slot_bytes, slot_text_bytes,
    wrapped_count, ByteSlots, FixedSlots, Slots, TextSlots,
};
use crate::error::Error;
use crate::interning::{
    interned_tables, with_resource, with_scope, Interned, Outcome, ResourceScope,
};
use crate::otlp::{
    pairs, AnyKind, AnyValue, ExportLogsServiceRequest, LogRecord, ResourceLogs, ScopeLogs, Val,
};
use crate::proto::{any_bytes, encode_any};
use crate::scan::Named;
use crate::schema::DICT_CAP;
use crate::signal::{since_epoch, Sealed, Sidecar, Sidecars};
use crate::table::{Column, Data, Field, Table};
use vstd::prelude::*;

verus! {

// ---------------------------------------------------------------------------
// One record.

/// A wire timestamp as a stored one. Everything that does not fit reads as
/// zero, which on the wire means "unset".
pub open spec fn nanos_of(t: u64) -> i64 {
    if t <= i64::MAX {
        t as i64
    } else {
        0
    }
}

/// One wire timestamp, read as a stored one. A raw cast would wrap to a
/// negative time, and saturating would put a block past every retention
/// cutoff; a malformed value reads as absent instead.
pub fn nanos(t: u64) -> (r: i64)
    ensures
        r == nanos_of(t),
{
    if t <= i64::MAX as u64 {
        t as i64
    } else {
        0
    }
}

/// The time a record is stored under: its own, else the receiver's reading,
/// else the moment it was taken delivery of. A stored zero would put the record
/// at the epoch and make its block match every query.
pub open spec fn stamp_of(rec: LogRecord, now: i64) -> i64 {
    if nanos_of(rec.time_unix_nano) != 0 {
        nanos_of(rec.time_unix_nano)
    } else if nanos_of(rec.observed_time_unix_nano) != 0 {
        nanos_of(rec.observed_time_unix_nano)
    } else {
        now
    }
}

/// One row of the `logs` table, but for its two dictionary columns.
pub struct LogRow {
    pub time: i64,
    pub observed: Option<i64>,
    pub severity_number: i32,
    /// The body, where it is a string.
    pub body: Option<Seq<char>>,
    /// The body as the bytes of its message, where it is anything else.
    pub body_ser: Option<Seq<u8>>,
    pub trace_id: Option<Seq<u8>>,
    pub span_id: Option<Seq<u8>>,
    pub flags: u32,
    pub dropped: u32,
    pub resource_id: u16,
    pub scope_id: u16,
}

/// The body of a record as a text.
pub open spec fn body_text(b: Option<AnyValue>) -> Option<Seq<char>> {
    match b {
        Some(v) => match v.val() {
            Val::Str(s) => Some(s),
            _ => None,
        },
        None => None,
    }
}

/// The body of a record as the bytes of its message.
pub open spec fn body_bytes(b: Option<AnyValue>) -> Option<Seq<u8>> {
    match b {
        Some(v) => match v.val() {
            Val::Str(_) => None,
            Val::Empty => None,
            x => Some(any_bytes(x)),
        },
        None => None,
    }
}

/// A value that is absent where it is zero.
pub open spec fn nonzero(t: i64) -> Option<i64> {
    if t != 0 {
        Some(t)
    } else {
        None
    }
}

/// The row a record is stored as.
pub open spec fn row_of(rec: LogRecord, rid: u16, sid: u16, now: i64) -> LogRow {
    LogRow {
        time: stamp_of(rec, now),
        observed: nonzero(nanos_of(rec.observed_time_unix_nano)),
        severity_number: rec.severity_number,
        body: body_text(rec.body),
        body_ser: body_bytes(rec.body),
        trace_id: of_width(rec.trace_id@, 16),
        span_id: of_width(rec.span_id@, 8),
        flags: rec.flags,
        dropped: rec.dropped_attributes_count,
        resource_id: rid,
        scope_id: sid,
    }
}

// ---------------------------------------------------------------------------
// What has been accumulated.

/// What a logs builder has accumulated. The two dictionary columns are listed
/// apart, because they are appended to before anything else and the second can
/// refuse what the first has taken.
pub struct LogsState {
    pub rows: Seq<LogRow>,
    pub severity: Seq<Option<Seq<char>>>,
    pub event: Seq<Option<Seq<char>>>,
    pub attrs: Seq<AttrRow>,
    pub rs: Interned,
    pub min_ts: i64,
    pub max_ts: i64,
}

/// A text of a dictionary column: the empty one is null.
pub open spec fn dict_text(s: Seq<char>) -> Option<Seq<char>> {
    if s.len() == 0 {
        None
    } else {
        Some(s)
    }
}

/// Whether a dictionary column takes a text.
pub open spec fn dict_takes(slots: Seq<Option<Seq<char>>>, s: Seq<char>) -> bool {
    s.len() == 0 || fits_dict(firsts(slots), s, DICT_CAP as nat)
}

/// What has been accumulated after one record, and the label of what refused
/// it.
pub open spec fn with_record(st: LogsState, rec: LogRecord, rid: u16, sid: u16, now: i64) -> (
    LogsState,
    Option<Seq<char>>,
) {
    if !dict_takes(st.severity, rec.severity_text@) {
        (st, Some("logs.severity_text"@))
    } else {
        let s1 = LogsState {
            severity: st.severity.push(dict_text(rec.severity_text@)),
            ..st
        };
        if !dict_takes(st.event, rec.event_name@) {
            (s1, Some("logs.event_name"@))
        } else {
            let t = stamp_of(rec, now);
            let end = appended(st.attrs, st.rows.len() as u32, pairs(rec.attributes@));
            (
                LogsState {
                    event: st.event.push(dict_text(rec.event_name@)),
                    rows: st.rows.push(row_of(rec, rid, sid, now)),
                    min_ts: if t < st.min_ts {
                        t
                    } else {
                        st.min_ts
                    },
                    max_ts: if t > st.max_ts {
                        t
                    } else {
                        st.max_ts
                    },
                    attrs: end.0,
                    ..s1
                },
                if end.1 {
                    None
                } else {
                    Some("log_attrs.key"@)
                },
            )
        }
    }
}

/// What has been accumulated after some records, how many were added, and the
/// label of what refused one.
pub open spec fn with_records(st: LogsState, recs: Seq<LogRecord>, rid: u16, sid: u16, now: i64) -> (
    LogsState,
    nat,
    Option<Seq<char>>,
)
    decreases recs.len(),
{
    if recs.len() == 0 {
        (st, 0, None)
    } else {
        let (s1, e) = with_record(st, recs[0], rid, sid, now);
        if e is Some {
            (s1, 0, e)
        } else {
            let (s2, n, e2) = with_records(s1, recs.skip(1), rid, sid, now);
            (s2, n + 1, e2)
        }
    }
}

/// The same, scope by scope.
pub open spec fn with_scope_logs(st: LogsState, sls: Seq<ScopeLogs>, rid: u16, now: i64) -> (
    LogsState,
    nat,
    Option<Seq<char>>,
)
    decreases sls.len(),
{
    if sls.len() == 0 {
        (st, 0, None)
    } else {
        let (rs, o) = with_scope(st.rs, sls[0].scope);
        let s0 = LogsState { rs, ..st };
        match o {
            Outcome::Full(label) => (s0, 0, Some(label)),
            Outcome::Id(sid) => {
                let (s1, n, e) = with_records(s0, sls[0].log_records@, rid, sid, now);
                if e is Some {
                    (s1, n, e)
                } else {
                    let (s2, m, e2) = with_scope_logs(s1, sls.skip(1), rid, now);
                    (s2, n + m, e2)
                }
            },
        }
    }
}

/// The same, resource by resource.
pub open spec fn with_resource_logs(st: LogsState, rls: Seq<ResourceLogs>, now: i64) -> (
    LogsState,
    nat,
    Option<Seq<char>>,
)
    decreases rls.len(),
{
    if rls.len() == 0 {
        (st, 0, None)
    } else {
        let (rs, o) = with_resource(st.rs, rls[0].resource);
        let s0 = LogsState { rs, ..st };
        match o {
            Outcome::Full(label) => (s0, 0, Some(label)),
            Outcome::Id(rid) => {
                let (s1, n, e) = with_scope_logs(s0, rls[0].scope_logs@, rid, now);
                if e is Some {
                    (s1, n, e)
                } else {
                    let (s2, m, e2) = with_resource_logs(s1, rls.skip(1), now);
                    (s2, n + m, e2)
                }
            },
        }
    }
}

/// How many records some scopes hold.
pub open spec fn scope_records(sls: Seq<ScopeLogs>) -> nat
    decreases sls.len(),
{
    if sls.len() == 0 {
        0
    } else {
        sls[0].log_records@.len() + scope_records(sls.skip(1))
    }
}

/// How many records some resources hold.
pub open spec fn all_records(rls: Seq<ResourceLogs>) -> nat
    decreases rls.len(),
{
    if rls.len() == 0 {
        0
    } else {
        scope_records(rls[0].scope_logs@) + all_records(rls.skip(1))
    }
}

// ---------------------------------------------------------------------------
// Columns.

pub open spec fn times_in(rows: Seq<LogRow>) -> Seq<i64> {
    rows.map_values(|r: LogRow| r.time)
}

pub open spec fn observed_in(rows: Seq<LogRow>) -> Seq<Option<i64>> {
    rows.map_values(|r: LogRow| r.observed)
}

pub open spec fn severities_in(rows: Seq<LogRow>) -> Seq<i32> {
    rows.map_values(|r: LogRow| r.severity_number)
}

pub open spec fn bodies_in(rows: Seq<LogRow>) -> Seq<Option<Seq<char>>> {
    rows.map_values(|r: LogRow| r.body)
}

pub open spec fn body_sers_in(rows: Seq<LogRow>) -> Seq<Option<Seq<u8>>> {
    rows.map_values(|r: LogRow| r.body_ser)
}

pub open spec fn traces_in(rows: Seq<LogRow>) -> Seq<Option<Seq<u8>>> {
    rows.map_values(|r: LogRow| r.trace_id)
}

pub open spec fn spans_in(rows: Seq<LogRow>) -> Seq<Option<Seq<u8>>> {
    rows.map_values(|r: LogRow| r.span_id)
}

pub open spec fn flags_in(rows: Seq<LogRow>) -> Seq<u32> {
    rows.map_values(|r: LogRow| r.flags)
}

pub open spec fn dropped_in(rows: Seq<LogRow>) -> Seq<u32> {
    rows.map_values(|r: LogRow| r.dropped)
}

pub open spec fn resources_in(rows: Seq<LogRow>) -> Seq<u16> {
    rows.map_values(|r: LogRow| r.resource_id)
}

pub open spec fn scopes_in(rows: Seq<LogRow>) -> Seq<u16> {
    rows.map_values(|r: LogRow| r.scope_id)
}

proof fn lemma_log_push(rows: Seq<LogRow>, r: LogRow)
    ensures
        times_in(rows.push(r)) == times_in(rows).push(r.time),
        observed_in(rows.push(r)) == observed_in(rows).push(r.observed),
        severities_in(rows.push(r)) == severities_in(rows).push(r.severity_number),
        bodies_in(rows.push(r)) == bodies_in(rows).push(r.body),
        body_sers_in(rows.push(r)) == body_sers_in(rows).push(r.body_ser),
        traces_in(rows.push(r)) == traces_in(rows).push(r.trace_id),
        spans_in(rows.push(r)) == spans_in(rows).push(r.span_id),
        flags_in(rows.push(r)) == flags_in(rows).push(r.flags),
        dropped_in(rows.push(r)) == dropped_in(rows).push(r.dropped),
        resources_in(rows.push(r)) == resources_in(rows).push(r.resource_id),
        scopes_in(rows.push(r)) == scopes_in(rows).push(r.scope_id),
{
    assert(times_in(rows.push(r)) =~= times_in(rows).push(r.time));
    assert(observed_in(rows.push(r)) =~= observed_in(rows).push(r.observed));
    assert(severities_in(rows.push(r)) =~= severities_in(rows).push(r.severity_number));
    assert(bodies_in(rows.push(r)) =~= bodies_in(rows).push(r.body));
    assert(body_sers_in(rows.push(r)) =~= body_sers_in(rows).push(r.body_ser));
    assert(traces_in(rows.push(r)) =~= traces_in(rows).push(r.trace_id));
    assert(spans_in(rows.push(r)) =~= spans_in(rows).push(r.span_id));
    assert(flags_in(rows.push(r)) =~= flags_in(rows).push(r.flags));
    assert(dropped_in(rows.push(r)) =~= dropped_in(rows).push(r.dropped));
    assert(resources_in(rows.push(r)) =~= resources_in(rows).push(r.resource_id));
    assert(scopes_in(rows.push(r)) =~= scopes_in(rows).push(r.scope_id));
}

/// Log records on their way into a block.
pub struct LogsBuilder {
    pub time: Vec<i64>,
    pub observed: Slots<i64>,
    pub sev_num: Vec<i32>,
    pub sev_text: DictColumn,
    pub event_name: DictColumn,
    pub body: TextSlots,
    pub body_ser: ByteSlots,
    pub trace_id: FixedSlots,
    pub span_id: FixedSlots,
    pub flags: Vec<u32>,
    pub dropped: Vec<u32>,
    pub resource_id: Vec<u16>,
    pub scope_id: Vec<u16>,
    pub log_attrs: AttrsBuilder,
    pub rs: ResourceScope,
    pub next_id: u32,
    pub min_ts: i64,
    pub max_ts: i64,
    pub rows: Ghost<Seq<LogRow>>,
}

impl View for LogsBuilder {
    type V = LogsState;

    open spec fn view(&self) -> LogsState {
        LogsState {
            rows: self.rows@,
            severity: self.sev_text.slots(),
            event: self.event_name.slots(),
            attrs: self.log_attrs@,
            rs: self.rs@,
            min_ts: self.min_ts,
            max_ts: self.max_ts,
        }
    }
}

impl LogsState {
    /// Nothing accumulated.
    pub open spec fn none() -> LogsState {
        LogsState {
            rows: Seq::empty(),
            severity: Seq::empty(),
            event: Seq::empty(),
            attrs: Seq::empty(),
            rs: Interned::none(),
            min_ts: i64::MAX,
            max_ts: i64::MIN,
        }
    }
}

impl Default for LogsBuilder {
    fn default() -> (r: LogsBuilder)
        ensures
            r.wf(),
            r@ == LogsState::none(),
    {
        LogsBuilder::new()
    }
}

impl LogsBuilder {
    pub open spec fn wf(&self) -> bool {
        let rows = self.rows@;
        &&& self.next_id == rows.len()
        &&& self.time@ == times_in(rows)
        &&& self.observed.wf()
        &&& self.observed.slots() == observed_in(rows)
        &&& self.sev_num@ == severities_in(rows)
        &&& self.sev_text.wf()
        &&& self.sev_text.label@ == "logs.severity_text"@
        &&& self.event_name.wf()
        &&& self.event_name.label@ == "logs.event_name"@
        &&& self.body.wf()
        &&& self.body.slots() == bodies_in(rows)
        &&& self.body_ser.wf()
        &&& self.body_ser.slots() == body_sers_in(rows)
        &&& self.trace_id.wf()
        &&& self.trace_id.width == 16
        &&& self.trace_id.slots() == traces_in(rows)
        &&& self.span_id.wf()
        &&& self.span_id.width == 8
        &&& self.span_id.slots() == spans_in(rows)
        &&& self.flags@ == flags_in(rows)
        &&& self.dropped@ == dropped_in(rows)
        &&& self.resource_id@ == resources_in(rows)
        &&& self.scope_id@ == scopes_in(rows)
        &&& self.log_attrs.wf()
        &&& self.log_attrs.label@ == "log_attrs.key"@
        &&& self.rs.wf()
    }

    pub fn new() -> (r: LogsBuilder)
        ensures
            r.wf(),
            r@ == LogsState::none(),
    {
        let r = LogsBuilder {
            time: Vec::new(),
            observed: Slots::new(),
            sev_num: Vec::new(),
            sev_text: DictColumn::new("logs.severity_text"),
            event_name: DictColumn::new("logs.event_name"),
            body: TextSlots::new(),
            body_ser: ByteSlots::new(),
            trace_id: FixedSlots::new(16),
            span_id: FixedSlots::new(8),
            flags: Vec::new(),
            dropped: Vec::new(),
            resource_id: Vec::new(),
            scope_id: Vec::new(),
            log_attrs: AttrsBuilder::new("log_attrs.key"),
            rs: ResourceScope::new(),
            next_id: 0,
            min_ts: i64::MAX,
            max_ts: i64::MIN,
            rows: Ghost(Seq::empty()),
        };
        proof {
            let none = Seq::<LogRow>::empty();
            assert(times_in(none) =~= Seq::<i64>::empty());
            assert(observed_in(none) =~= Seq::<Option<i64>>::empty());
            assert(severities_in(none) =~= Seq::<i32>::empty());
            assert(bodies_in(none) =~= Seq::<Option<Seq<char>>>::empty());
            assert(body_sers_in(none) =~= Seq::<Option<Seq<u8>>>::empty());
            assert(traces_in(none) =~= Seq::<Option<Seq<u8>>>::empty());
            assert(spans_in(none) =~= Seq::<Option<Seq<u8>>>::empty());
            assert(flags_in(none) =~= Seq::<u32>::empty());
            assert(dropped_in(none) =~= Seq::<u32>::empty());
            assert(resources_in(none) =~= Seq::<u16>::empty());
            assert(scopes_in(none) =~= Seq::<u16>::empty());
        }
        r
    }

    pub fn num_rows(&self) -> (n: usize)
        requires
            self.wf(),
        ensures
            n == self@.rows.len(),
    {
        self.next_id as usize
    }

    pub fn is_empty(&self) -> (r: bool)
        requires
            self.wf(),
        ensures
            r == (self@.rows.len() == 0),
    {
        self.next_id == 0
    }

    fn push_row(&mut self, rec: &LogRecord, rid: u16, sid: u16, t: i64, Ghost(now): Ghost<i64>)
        requires
            old(self).wf(),
            old(self)@.rows.len() < u32::MAX,
            t == stamp_of(*rec, now),
        ensures
            final(self).wf(),
            final(self)@ == (LogsState {
                rows: old(self)@.rows.push(row_of(*rec, rid, sid, now)),
                min_ts: if t < old(self)@.min_ts {
                    t
                } else {
                    old(self)@.min_ts
                },
                max_ts: if t > old(self)@.max_ts {
                    t
                } else {
                    old(self)@.max_ts
                },
                ..old(self)@
            }),
    {
        let ghost row = row_of(*rec, rid, sid, now);
        self.next_id = self.next_id + 1;
        if t < self.min_ts {
            self.min_ts = t;
        }
        if t > self.max_ts {
            self.max_ts = t;
        }
        self.time.push(t);
        let observed: i64 = nanos(rec.observed_time_unix_nano);
        self.observed.push(
            if observed != 0 {
                Some(observed)
            } else {
                None
            },
            0,
        );
        self.sev_num.push(rec.severity_number);
        let mut text: Option<&String> = None;
        let mut other: Option<&AnyValue> = None;
        if let Some(b) = &rec.body {
            if let Some(k) = &b.value {
                match k {
                    AnyKind::StringValue(s) => {
                        text = Some(s);
                    },
                    _ => {
                        other = Some(b);
                    },
                }
            }
        }
        self.body.push(text);
        match other {
            Some(b) => self.body_ser.push(encode_any(b)),
            None => self.body_ser.push_null(),
        }
        self.trace_id.append_fixed(&rec.trace_id);
        self.span_id.append_fixed(&rec.span_id);
        self.flags.push(rec.flags);
        self.dropped.push(rec.dropped_attributes_count);
        self.resource_id.push(rid);
        self.scope_id.push(sid);
        proof {
            lemma_log_push(old(self).rows@, row);
            self.rows@ = old(self).rows@.push(row);
        }
    }

    /// Absorb one record. The fallible steps that can be taken first are, so
    /// that ids stay dense.
    fn append_record(&mut self, rec: &LogRecord, rid: u16, sid: u16, now: i64) -> (r: Result<(), Error>)
        requires
            old(self).wf(),
            old(self)@.rows.len() < u32::MAX,
        ensures
            final(self).wf(),
            ({
                let end = with_record(old(self)@, *rec, rid, sid, now);
                &&& final(self)@ == end.0
                &&& r is Ok <==> end.1 is None
                &&& r matches Err(e) ==> e matches Error::DictionaryFull(l) && Some(l@) == end.1
            }),
    {
        match self.sev_text.append(rec.severity_text.as_str()) {
            Ok(_) => {},
            Err(e) => {
                return Err(e);
            },
        }
        match self.event_name.append(rec.event_name.as_str()) {
            Ok(_) => {},
            Err(e) => {
                return Err(e);
            },
        }
        let id: u32 = self.next_id;
        let observed: i64 = nanos(rec.observed_time_unix_nano);
        let time: i64 = nanos(rec.time_unix_nano);
        let t: i64 = if time != 0 {
            time
        } else if observed != 0 {
            observed
        } else {
            now
        };
        self.push_row(rec, rid, sid, t, Ghost(now));
        self.log_attrs.append_all(id, &rec.attributes)
    }
}

/// A result that says what absorbing came to.
pub open spec fn absorbed_as(r: Result<usize, Error>, end: (LogsState, nat, Option<Seq<char>>)) -> bool {
    &&& r is Ok <==> end.2 is None
    &&& r matches Ok(n) ==> n == end.1
    &&& r matches Err(e) ==> e matches Error::DictionaryFull(l) && Some(l@) == end.2
}

impl LogsBuilder {
    fn append_records(&mut self, recs: &Vec<LogRecord>, rid: u16, sid: u16, now: i64) -> (r: Result<
        usize,
        Error,
    >)
        requires
            old(self).wf(),
            old(self)@.rows.len() + recs@.len() <= u32::MAX,
        ensures
            final(self).wf(),
            final(self)@ == with_records(old(self)@, recs@, rid, sid, now).0,
            absorbed_as(r, with_records(old(self)@, recs@, rid, sid, now)),
            final(self)@.rows.len() <= old(self)@.rows.len() + recs@.len(),
            r matches Ok(n) ==> n <= recs@.len(),
    {
        let ghost start = self@;
        let ghost all = recs@;
        let mut i: usize = 0;
        assert(all.skip(0) =~= all);
        while i < recs.len()
            invariant
                i <= recs@.len(),
                all == recs@,
                self.wf(),
                start == old(self)@,
                start.rows.len() + all.len() <= u32::MAX,
                self@.rows.len() <= start.rows.len() + i,
                with_records(start, all, rid, sid, now) == ({
                    let rest = with_records(self@, all.skip(i as int), rid, sid, now);
                    (rest.0, i as nat + rest.1, rest.2)
                }),
            decreases recs@.len() - i,
        {
            assert(all.skip(i as int)[0] == all[i as int]);
            assert(all.skip(i as int).skip(1) =~= all.skip(i + 1));
            match self.append_record(&recs[i], rid, sid, now) {
                Ok(_) => {},
                Err(e) => {
                    return Err(e);
                },
            }
            i = i + 1;
        }
        Ok(i)
    }

    fn append_scopes(&mut self, sls: &Vec<ScopeLogs>, rid: u16, now: i64) -> (r: Result<usize, Error>)
        requires
            old(self).wf(),
            old(self)@.rows.len() + scope_records(sls@) <= u32::MAX,
        ensures
            final(self).wf(),
            final(self)@ == with_scope_logs(old(self)@, sls@, rid, now).0,
            absorbed_as(r, with_scope_logs(old(self)@, sls@, rid, now)),
            final(self)@.rows.len() <= old(self)@.rows.len() + scope_records(sls@),
            r matches Ok(n) ==> n <= scope_records(sls@),
    {
        let ghost start = self@;
        let ghost all = sls@;
        let ghost budget = scope_records(all);
        let mut i: usize = 0;
        let mut added: usize = 0;
        assert(all.skip(0) =~= all);
        while i < sls.len()
            invariant
                i <= sls@.len(),
                all == sls@,
                self.wf(),
                start == old(self)@,
                budget == scope_records(all),
                start.rows.len() + budget <= u32::MAX,
                self@.rows.len() + scope_records(all.skip(i as int)) <= start.rows.len() + budget,
                added + scope_records(all.skip(i as int)) <= budget,
                with_scope_logs(start, all, rid, now) == ({
                    let rest = with_scope_logs(self@, all.skip(i as int), rid, now);
                    (rest.0, added as nat + rest.1, rest.2)
                }),
            decreases sls@.len() - i,
        {
            assert(all.skip(i as int)[0] == all[i as int]);
            assert(all.skip(i as int).skip(1) =~= all.skip(i + 1));
            let sl = &sls[i];
            let scope = match &sl.scope {
                Some(x) => Some(x),
                None => None,
            };
            let sid: u16 = match self.rs.scope(scope) {
                Ok(id) => id,
                Err(e) => {
                    return Err(e);
                },
            };
            let n: usize = match self.append_records(&sl.log_records, rid, sid, now) {
                Ok(n) => n,
                Err(e) => {
                    return Err(e);
                },
            };
            added = added + n;
            i = i + 1;
        }
        Ok(added)
    }

    /// Absorb one export request. Returns the number of log records added.
    /// `now` is what a record without any clock of its own is stored under.
    ///
    /// On a refusal what had been absorbed before it stays absorbed.
    pub fn append_request(&mut self, req: &ExportLogsServiceRequest, now: i64) -> (r: Result<usize, Error>)
        requires
            old(self).wf(),
            old(self)@.rows.len() + all_records(req.resource_logs@) <= u32::MAX,
        ensures
            final(self).wf(),
            final(self)@ == with_resource_logs(old(self)@, req.resource_logs@, now).0,
            absorbed_as(r, with_resource_logs(old(self)@, req.resource_logs@, now)),
    {
        let ghost start = self@;
        let ghost all = req.resource_logs@;
        let ghost budget = all_records(all);
        let mut i: usize = 0;
        let mut added: usize = 0;
        assert(all.skip(0) =~= all);
        while i < req.resource_logs.len()
            invariant
                i <= all.len(),
                all == req.resource_logs@,
                self.wf(),
                start == old(self)@,
                budget == all_records(all),
                start.rows.len() + budget <= u32::MAX,
                self@.rows.len() + all_records(all.skip(i as int)) <= start.rows.len() + budget,
                added + all_records(all.skip(i as int)) <= budget,
                with_resource_logs(start, all, now) == ({
                    let rest = with_resource_logs(self@, all.skip(i as int), now);
                    (rest.0, added as nat + rest.1, rest.2)
                }),
            decreases all.len() - i,
        {
            assert(all.skip(i as int)[0] == all[i as int]);
            assert(all.skip(i as int).skip(1) =~= all.skip(i + 1));
            let rl = &req.resource_logs[i];
            let resource = match &rl.resource {
                Some(x) => Some(x),
                None => None,
            };
            let rid: u16 = match self.rs.resource(resource) {
                Ok(id) => id,
                Err(e) => {
                    return Err(e);
                },
            };
            let n: usize = match self.append_scopes(&rl.scope_logs, rid, now) {
                Ok(n) => n,
                Err(e) => {
                    return Err(e);
                },
            };
            added = added + n;
            i = i + 1;
        }
        Ok(added)
    }
}

// ---------------------------------------------------------------------------
// Headroom.

/// What a request would add, at most: resources, scopes, records, and the
/// attributes of each.
pub struct Demand {
    pub resources: nat,
    pub scopes: nat,
    pub records: nat,
    pub res_kv: nat,
    pub scope_kv: nat,
    pub log_kv: nat,
}

impl Demand {
    pub open spec fn none() -> Demand {
        Demand { resources: 0, scopes: 0, records: 0, res_kv: 0, scope_kv: 0, log_kv: 0 }
    }
}

/// The attributes of some records.
pub open spec fn record_attrs(recs: Seq<LogRecord>) -> nat
    decreases recs.len(),
{
    if recs.len() == 0 {
        0
    } else {
        recs[0].attributes@.len() + record_attrs(recs.skip(1))
    }
}

/// The attributes a scope is stored with, at most: its own and two more.
pub open spec fn scope_demand(s: Option<crate::otlp::InstrumentationScope>) -> nat {
    match s {
        Some(x) => x.attributes@.len() + 2,
        None => 2,
    }
}

/// The attributes of a resource.
pub open spec fn resource_demand(r: Option<crate::otlp::Resource>) -> nat {
    match r {
        Some(x) => x.attributes@.len(),
        None => 0,
    }
}

/// What some scopes would add, at most.
pub open spec fn scopes_demand(sls: Seq<ScopeLogs>) -> Demand
    decreases sls.len(),
{
    if sls.len() == 0 {
        Demand::none()
    } else {
        let d = scopes_demand(sls.skip(1));
        Demand {
            scopes: d.scopes + 1,
            scope_kv: d.scope_kv + scope_demand(sls[0].scope),
            records: d.records + sls[0].log_records@.len(),
            log_kv: d.log_kv + record_attrs(sls[0].log_records@),
            ..d
        }
    }
}

/// What some resources would add, at most.
pub open spec fn resources_demand(rls: Seq<ResourceLogs>) -> Demand
    decreases rls.len(),
{
    if rls.len() == 0 {
        Demand::none()
    } else {
        let d = resources_demand(rls.skip(1));
        let e = scopes_demand(rls[0].scope_logs@);
        Demand {
            resources: d.resources + 1,
            res_kv: d.res_kv + resource_demand(rls[0].resource),
            scopes: d.scopes + e.scopes,
            scope_kv: d.scope_kv + e.scope_kv,
            records: d.records + e.records,
            log_kv: d.log_kv + e.log_kv,
        }
    }
}

/// Whether what a builder holds leaves room for a demand.
pub open spec fn leaves_room(st: LogsState, d: Demand) -> bool {
    &&& st.rs.resources.len() + d.resources <= DICT_CAP
    &&& st.rs.scopes.len() + d.scopes <= DICT_CAP
    &&& firsts(keys_in(st.rs.resource_attrs)).len() + d.res_kv <= DICT_CAP
    &&& firsts(keys_in(st.rs.scope_attrs)).len() + d.scope_kv <= DICT_CAP
    &&& firsts(keys_in(st.attrs)).len() + d.log_kv <= DICT_CAP
    &&& firsts(st.severity).len() + d.records <= DICT_CAP
    &&& firsts(st.event).len() + d.records <= DICT_CAP
}

/// A count, held at the end of the word's range where it lies beyond it.
pub open spec fn held(n: nat) -> usize {
    if n <= usize::MAX {
        n as usize
    } else {
        usize::MAX
    }
}

/// Running totals of a demand.
pub struct Totals {
    pub resources: usize,
    pub scopes: usize,
    pub records: usize,
    pub res_kv: usize,
    pub scope_kv: usize,
    pub log_kv: usize,
}

impl Totals {
    /// The totals are those of a demand, each held at the end of its range.
    pub open spec fn are(&self, d: Demand) -> bool {
        &&& self.resources == held(d.resources)
        &&& self.scopes == held(d.scopes)
        &&& self.records == held(d.records)
        &&& self.res_kv == held(d.res_kv)
        &&& self.scope_kv == held(d.scope_kv)
        &&& self.log_kv == held(d.log_kv)
    }
}

fn count_attrs(recs: &Vec<LogRecord>) -> (n: usize)
    ensures
        n == held(record_attrs(recs@)),
{
    let ghost all = recs@;
    let mut i: usize = recs.len();
    let mut n: usize = 0;
    assert(all.skip(all.len() as int) =~= Seq::<LogRecord>::empty());
    while i > 0
        invariant
            i <= recs@.len(),
            all == recs@,
            n == held(record_attrs(all.skip(i as int))),
        decreases i,
    {
        i = i - 1;
        assert(all.skip(i as int)[0] == all[i as int]);
        assert(all.skip(i as int).skip(1) =~= all.skip(i + 1));
        n = n.saturating_add(recs[i].attributes.len());
    }
    assert(all.skip(0) =~= all);
    n
}

fn count_scopes(sls: &Vec<ScopeLogs>) -> (t: Totals)
    ensures
        t.are(scopes_demand(sls@)),
{
    let ghost all = sls@;
    let mut i: usize = sls.len();
    let mut t = Totals { resources: 0, scopes: 0, records: 0, res_kv: 0, scope_kv: 0, log_kv: 0 };
    assert(all.skip(all.len() as int) =~= Seq::<ScopeLogs>::empty());
    while i > 0
        invariant
            i <= sls@.len(),
            all == sls@,
            t.are(scopes_demand(all.skip(i as int))),
        decreases i,
    {
        i = i - 1;
        assert(all.skip(i as int)[0] == all[i as int]);
        assert(all.skip(i as int).skip(1) =~= all.skip(i + 1));
        let sl = &sls[i];
        let own: usize = match &sl.scope {
            Some(s) => s.attributes.len().saturating_add(2),
            None => 2,
        };
        t.scopes = t.scopes.saturating_add(1);
        t.scope_kv = t.scope_kv.saturating_add(own);
        t.records = t.records.saturating_add(sl.log_records.len());
        t.log_kv = t.log_kv.saturating_add(count_attrs(&sl.log_records));
    }
    assert(all.skip(0) =~= all);
    t
}

fn count_request(rls: &Vec<ResourceLogs>) -> (t: Totals)
    ensures
        t.are(resources_demand(rls@)),
{
    let ghost all = rls@;
    let mut i: usize = rls.len();
    let mut t = Totals { resources: 0, scopes: 0, records: 0, res_kv: 0, scope_kv: 0, log_kv: 0 };
    assert(all.skip(all.len() as int) =~= Seq::<ResourceLogs>::empty());
    while i > 0
        invariant
            i <= rls@.len(),
            all == rls@,
            t.are(resources_demand(all.skip(i as int))),
        decreases i,
    {
        i = i - 1;
        assert(all.skip(i as int)[0] == all[i as int]);
        assert(all.skip(i as int).skip(1) =~= all.skip(i + 1));
        let rl = &rls[i];
        let e = count_scopes(&rl.scope_logs);
        let own: usize = match &rl.resource {
            Some(r) => r.attributes.len(),
            None => 0,
        };
        t.resources = t.resources.saturating_add(1);
        t.res_kv = t.res_kv.saturating_add(own);
        t.scopes = t.scopes.saturating_add(e.scopes);
        t.scope_kv = t.scope_kv.saturating_add(e.scope_kv);
        t.records = t.records.saturating_add(e.records);
        t.log_kv = t.log_kv.saturating_add(e.log_kv);
    }
    assert(all.skip(0) =~= all);
    t
}

impl LogsBuilder {
    /// Whether `req` is guaranteed to fit without overflowing a dictionary or
    /// an id space. Deliberately conservative: it assumes every key in the
    /// request is new, because the alternative is discovering the overflow
    /// halfway through an append.
    pub fn has_headroom_for(&self, req: &ExportLogsServiceRequest) -> (r: bool)
        requires
            self.wf(),
        ensures
            r == leaves_room(self@, resources_demand(req.resource_logs@)),
    {
        let t = count_request(&req.resource_logs);
        self.rs.has_headroom(t.resources, t.scopes, t.res_kv, t.scope_kv)
            && self.log_attrs.has_headroom(t.log_kv) && self.sev_text.has_headroom(t.records)
            && self.event_name.has_headroom(t.records)
    }

    /// How many records a request holds, held at the end of the word's range:
    /// a block numbers its rows within 32 bits.
    pub fn records_in(req: &ExportLogsServiceRequest) -> (n: usize)
        ensures
            n == held(all_records(req.resource_logs@)),
    {
        let t = count_request(&req.resource_logs);
        proof {
            lemma_demand_records(req.resource_logs@);
        }
        t.records
    }

    /// Rough resident cost of what has been accumulated, by which a block is
    /// sealed. The variable-width heaps are measured rather than estimated,
    /// because a log body can be 20 bytes or 32 KB. The count wraps at the
    /// width of a word.
    pub fn approx_bytes(&self) -> (n: usize)
        requires
            self.wf(),
        ensures
            n == wrapped_count(cost_of(self@)),
    {
        let ghost st = self@;
        let rows: usize = self.next_id as usize;
        let attrs: usize = self.log_attrs.len();
        let shared: usize = self.rs.len();
        proof {
            lemma_small_count(rows);
            lemma_small_count(attrs);
            lemma_slot_bytes(self.body_ser);
        }
        let ghost a = st.rows.len();
        let ghost b = st.attrs.len();
        let ghost c = st.rs.resource_attrs.len() + st.rs.scope_attrs.len();
        let x: usize = mul_count(rows, 64, Ghost(a));
        let y: usize = mul_count(add_counts(attrs, shared, Ghost(b), Ghost(c)), 48, Ghost(b + c));
        let x: usize = add_counts(x, y, Ghost(a * 64), Ghost((b + c) * 48));
        let ghost sum = a * 64 + (b + c) * 48;
        let ghost d = slot_text_bytes(bodies_in(st.rows));
        let x: usize = add_counts(x, self.body.heap, Ghost(sum), Ghost(d));
        let ghost e = slot_bytes(body_sers_in(st.rows));
        let x: usize = add_counts(x, self.body_ser.heap, Ghost(sum + d), Ghost(e));
        let heap: usize = self.log_attrs.heap_bytes();
        let ghost f = heap_of(st.attrs);
        let x: usize = add_counts(x, heap, Ghost(sum + d + e), Ghost(f));
        let heap: usize = self.rs.heap_bytes();
        let ghost g = heap_of(st.rs.resource_attrs) + heap_of(st.rs.scope_attrs);
        add_counts(x, heap, Ghost(sum + d + e + f), Ghost(g))
    }
}

/// What the accumulated rows cost: fixed-width columns by the row, and the
/// bytes of the variable-width heaps.
pub open spec fn cost_of(st: LogsState) -> nat {
    let a = st.rows.len() * 64;
    let b = (st.attrs.len() + (st.rs.resource_attrs.len() + st.rs.scope_attrs.len())) * 48;
    let c = slot_text_bytes(bodies_in(st.rows)) + slot_bytes(body_sers_in(st.rows));
    let d = heap_of(st.rs.resource_attrs) + heap_of(st.rs.scope_attrs);
    a + b + c + heap_of(st.attrs) + d
}

proof fn lemma_scope_records(sls: Seq<ScopeLogs>)
    ensures
        scopes_demand(sls).records == scope_records(sls),
    decreases sls.len(),
{
    if sls.len() > 0 {
        lemma_scope_records(sls.skip(1));
    }
}

proof fn lemma_demand_records(rls: Seq<ResourceLogs>)
    ensures
        resources_demand(rls).records == all_records(rls),
    decreases rls.len(),
{
    if rls.len() > 0 {
        lemma_demand_records(rls.skip(1));
        lemma_scope_records(rls[0].scope_logs@);
    }
}

// ---------------------------------------------------------------------------
// Sealing.

/// The names of the columns of the `logs` table, in order.
pub open spec fn logs_columns() -> Seq<Seq<char>> {
    seq![
        "id"@,
        "time_unix_nano"@,
        "observed_time_unix_nano"@,
        "severity_number"@,
        "severity_text"@,
        "event_name"@,
        "body"@,
        "body_ser"@,
        "trace_id"@,
        "span_id"@,
        "flags"@,
        "dropped_attributes_count"@,
        "resource_id"@,
        "scope_id"@,
    ]
}

/// The finished `logs` table.
pub open spec fn logs_table_of(t: Table, st: LogsState) -> bool {
    let rows = st.rows;
    &&& t.wf()
    &&& t.rows == rows.len()
    &&& t.fields@.len() == 14
    &&& t.fields@.map_values(|f: Field| f.name@) == logs_columns()
    &&& is_u32s(t.fields@[0].column, counting(rows.len()))
    &&& is_times(t.fields@[1].column, times_in(rows))
    &&& is_time_slots(t.fields@[2].column, observed_in(rows))
    &&& is_i32s(t.fields@[3].column, severities_in(rows))
    &&& is_dict(t.fields@[4].column, st.severity)
    &&& is_dict(t.fields@[5].column, st.event)
    &&& is_text_slots(t.fields@[6].column, bodies_in(rows))
    &&& is_byte_slots(t.fields@[7].column, body_sers_in(rows))
    &&& is_fixed_slots(t.fields@[8].column, traces_in(rows), 16)
    &&& is_fixed_slots(t.fields@[9].column, spans_in(rows), 8)
    &&& is_u32s(t.fields@[10].column, flags_in(rows))
    &&& is_u32s(t.fields@[11].column, dropped_in(rows))
    &&& is_u16s(t.fields@[12].column, resources_in(rows))
    &&& is_u16s(t.fields@[13].column, scopes_in(rows))
}

/// Whether the columns are of one length. They are not after the second
/// dictionary column refused what the first had taken.
pub open spec fn is_even(st: LogsState) -> bool {
    st.severity.len() == st.rows.len() && st.event.len() == st.rows.len()
}

/// The sidecars of a block: the trace filter, where it is built and there is
/// something to index.
pub open spec fn trace_sidecar(v: Seq<Sidecar>, ids: Column, sidecars: Sidecars) -> bool {
    if sidecars == Sidecars::Build && keys_of(ids).len() > 0 {
        &&& v.len() == 1
        &&& v[0].name@ == TRACE_IDX@
        &&& v[0].bytes@ == file_of(filter_of(keys_of(ids)))
    } else {
        v.len() == 0
    }
}

/// The block that what has been accumulated is sealed into.
pub open spec fn logs_sealed_of(b: Sealed, st: LogsState, sidecars: Sidecars) -> bool {
    &&& b.num_rows == st.rows.len()
    &&& b.tables@.len() == 5
    &&& b.tables@[0].name@ == "logs"@
    &&& logs_table_of(b.tables@[0].table, st)
    &&& b.tables@[1].name@ == "log_attrs"@
    &&& attrs_table_of(b.tables@[1].table, st.attrs)
    &&& interned_tables(b.tables@.subrange(2, 5), st.rs)
    &&& b.min_ts == since_epoch(st.min_ts)
    &&& b.max_ts == since_epoch(st.max_ts)
    &&& trace_sidecar(b.sidecars@, b.tables@[0].table.fields@[8].column, sidecars)
}

/// What sealing gives: the block, or the refusal of columns of unequal length.
pub open spec fn seals_as(r: Result<Sealed, Error>, st: LogsState, sidecars: Sidecars) -> bool {
    if is_even(st) {
        r matches Ok(b) && logs_sealed_of(b, st, sidecars)
    } else {
        r matches Err(Error::Arrow(e)) && e@ == uneven_columns()
    }
}

/// What is said of columns of unequal length.
pub open spec fn uneven_columns() -> Seq<char> {
    "Invalid argument error: all columns in a record batch must have the same length"@
}

pub fn named_field(name: &str, column: Column) -> (f: Field)
    ensures
        f.name@ == name@,
        f.column == column,
{
    Field { name: name.to_owned(), column }
}

impl LogsBuilder {
    fn root_fields(&self) -> (fields: Vec<Field>)
        requires
            self.wf(),
            is_even(self@),
        ensures
            logs_table_of((Table { fields, rows: self.next_id as usize }), self@),
    {
        let ghost rows = self.rows@;
        let mut fields: Vec<Field> = Vec::new();
        fields.push(
            named_field("id", Column { valid: None, data: Data::U32(count_up(self.next_id)) }),
        );
        fields.push(
            named_field(
                "time_unix_nano",
                Column { valid: None, data: Data::Time(copy_all(&self.time)) },
            ),
        );
        fields.push(named_field("observed_time_unix_nano", finish_times(&self.observed)));
        fields.push(
            named_field(
                "severity_number",
                Column { valid: None, data: Data::I32(copy_all(&self.sev_num)) },
            ),
        );
        fields.push(named_field("severity_text", self.sev_text.finish()));
        fields.push(named_field("event_name", self.event_name.finish()));
        fields.push(named_field("body", finish_texts(&self.body)));
        fields.push(named_field("body_ser", finish_bytes(&self.body_ser)));
        fields.push(named_field("trace_id", finish_ids(&self.trace_id)));
        fields.push(named_field("span_id", finish_ids(&self.span_id)));
        fields.push(
            named_field("flags", Column { valid: None, data: Data::U32(copy_all(&self.flags)) }),
        );
        fields.push(
            named_field(
                "dropped_attributes_count",
                Column { valid: None, data: Data::U32(copy_all(&self.dropped)) },
            ),
        );
        fields.push(
            named_field(
                "resource_id",
                Column { valid: None, data: Data::U16(copy_all(&self.resource_id)) },
            ),
        );
        fields.push(
            named_field(
                "scope_id",
                Column { valid: None, data: Data::U16(copy_all(&self.scope_id)) },
            ),
        );
        proof {
            let n = rows.len();
            assert(self.observed.slots().len() == n);
            assert(self.body.slots().len() == n);
            assert(self.body_ser.slots().len() == n);
            assert(self.trace_id.slots().len() == n);
            assert(self.span_id.slots().len() == n);
            assert(self.time@.len() == n);
            assert(self.sev_num@.len() == n);
            assert(self.flags@.len() == n);
            assert(self.dropped@.len() == n);
            assert(self.resource_id@.len() == n);
            assert(self.scope_id@.len() == n);
            assert(fields@.map_values(|f: Field| f.name@) =~= logs_columns());
        }
        fields
    }

    fn seal(&self, sidecars: Sidecars) -> (r: Result<Sealed, Error>)
        requires
            self.wf(),
        ensures
            seals_as(r, self@, sidecars),
    {
        let n: usize = self.next_id as usize;
        if self.sev_text.len() != n || self.event_name.len() != n {
            return Err(
                Error::Arrow(
                    "Invalid argument error: all columns in a record batch must have the same length".to_owned(),
                ),
            );
        }
        let root = Table { fields: self.root_fields(), rows: n };
        let filter = match sidecars {
            Sidecars::Build => {
                assert(root.fields@[8].column.wf() && root.fields@[8].column.spec_len() == n);
                build(&root.fields[8].column)
            },
            Sidecars::Skip => None,
        };
        let attrs = match self.log_attrs.finish() {
            Ok(t) => t,
            Err(e) => {
                return Err(e);
            },
        };
        let mut shared = match self.rs.finish() {
            Ok(v) => v,
            Err(e) => {
                return Err(e);
            },
        };
        let ghost three = shared@;
        let mut tables: Vec<Named> = Vec::new();
        tables.push(Named { name: "logs".to_owned(), table: root });
        tables.push(Named { name: "log_attrs".to_owned(), table: attrs });
        tables.append(&mut shared);
        assert(tables@.subrange(2, 5) =~= three);
        let b = Sealed::with(n, tables, self.min_ts, self.max_ts);
        Ok(b.with_sidecar(TRACE_IDX, filter))
    }

    /// Seal the accumulated rows into a block and start over. Starting over
    /// happens on failure too: a builder whose columns are of unequal length
    /// would fail every seal after it.
    pub fn finish(&mut self) -> (r: Result<Sealed, Error>)
        requires
            old(self).wf(),
        ensures
            seals_as(r, old(self)@, Sidecars::Build),
            final(self).wf(),
            final(self)@ == LogsState::none(),
    {
        let out = self.seal(Sidecars::Build);
        *self = LogsBuilder::new();
        out
    }

    /// What has been accumulated, as a block without sidecars that can be read
    /// while the builder goes on accumulating.
    pub fn snapshot(&self) -> (r: Result<Sealed, Error>)
        requires
            self.wf(),
        ensures
            seals_as(r, self@, Sidecars::Skip),
    {
        self.seal(Sidecars::Skip)
    }
}

} // verus!
