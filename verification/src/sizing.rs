//! How much a metrics request holds, and whether a builder can still number it.

use crate::metrics::{
    data_size, exps_size, hists_size, metrics_size, numbers_last, numbers_size, plus, request_size,
    scopes_size, summs_size, MetricsBuilder, Size,
};
use crate::otlp::{
    ExponentialHistogramDataPoint, ExportMetricsServiceRequest, HistogramDataPoint, Metric,
    MetricData, NumberDataPoint, ResourceMetrics, ScopeMetrics, SummaryDataPoint,
};
use vstd::prelude::*;

verus! {

/// A count, as far as 64 bits can say it.
pub open spec fn capped(n: nat) -> nat {
    if n > u64::MAX {
        u64::MAX as nat
    } else {
        n
    }
}

/// How many metrics, points and exemplars something holds. A count stops at
/// what 64 bits can say.
struct Counts {
    metrics: u64,
    points: u64,
    exemplars: u64,
}

impl Counts {
    spec fn are(self, s: Size) -> bool {
        self.metrics == capped(s.metrics) && self.points == capped(s.points) && self.exemplars
            == capped(s.exemplars)
    }

    fn none() -> (r: Counts)
        ensures
            r.are((Size { metrics: 0, points: 0, exemplars: 0 })),
    {
        Counts { metrics: 0, points: 0, exemplars: 0 }
    }

    fn and(self, other: Counts, Ghost(a): Ghost<Size>, Ghost(b): Ghost<Size>) -> (r: Counts)
        requires
            self.are(a),
            other.are(b),
        ensures
            r.are(plus(a, b)),
    {
        Counts {
            metrics: self.metrics.saturating_add(other.metrics),
            points: self.points.saturating_add(other.points),
            exemplars: self.exemplars.saturating_add(other.exemplars),
        }
    }
}

fn a_point(exemplars: usize) -> (r: Counts)
    ensures
        r.are((Size { metrics: 0, points: 1, exemplars: exemplars as nat })),
{
    Counts { metrics: 0, points: 1, exemplars: exemplars as u64 }
}

fn in_numbers(ps: &Vec<NumberDataPoint>) -> (r: Counts)
    ensures
        r.are(numbers_size(ps@)),
{
    let ghost all = ps@;
    let mut i: usize = ps.len();
    let mut t = Counts::none();
    assert(all.skip(all.len() as int) =~= Seq::<NumberDataPoint>::empty());
    while i > 0
        invariant
            i <= ps@.len(),
            all == ps@,
            t.are(numbers_size(all.skip(i as int))),
        decreases i,
    {
        let ghost rest = numbers_size(all.skip(i as int));
        i = i - 1;
        assert(all.skip(i as int)[0] == all[i as int]);
        assert(all.skip(i as int).skip(1) =~= all.skip(i + 1));
        let n: usize = ps[i].exemplars.len();
        let ghost own = Size { metrics: 0, points: 1, exemplars: n as nat };
        t = a_point(n).and(t, Ghost(own), Ghost(rest));
    }
    assert(all.skip(0) =~= all);
    t
}

fn in_hists(ps: &Vec<HistogramDataPoint>) -> (r: Counts)
    ensures
        r.are(hists_size(ps@)),
{
    let ghost all = ps@;
    let mut i: usize = ps.len();
    let mut t = Counts::none();
    assert(all.skip(all.len() as int) =~= Seq::<HistogramDataPoint>::empty());
    while i > 0
        invariant
            i <= ps@.len(),
            all == ps@,
            t.are(hists_size(all.skip(i as int))),
        decreases i,
    {
        let ghost rest = hists_size(all.skip(i as int));
        i = i - 1;
        assert(all.skip(i as int)[0] == all[i as int]);
        assert(all.skip(i as int).skip(1) =~= all.skip(i + 1));
        let n: usize = ps[i].exemplars.len();
        let ghost own = Size { metrics: 0, points: 1, exemplars: n as nat };
        t = a_point(n).and(t, Ghost(own), Ghost(rest));
    }
    assert(all.skip(0) =~= all);
    t
}

fn in_exps(ps: &Vec<ExponentialHistogramDataPoint>) -> (r: Counts)
    ensures
        r.are(exps_size(ps@)),
{
    let ghost all = ps@;
    let mut i: usize = ps.len();
    let mut t = Counts::none();
    assert(all.skip(all.len() as int) =~= Seq::<ExponentialHistogramDataPoint>::empty());
    while i > 0
        invariant
            i <= ps@.len(),
            all == ps@,
            t.are(exps_size(all.skip(i as int))),
        decreases i,
    {
        let ghost rest = exps_size(all.skip(i as int));
        i = i - 1;
        assert(all.skip(i as int)[0] == all[i as int]);
        assert(all.skip(i as int).skip(1) =~= all.skip(i + 1));
        let n: usize = ps[i].exemplars.len();
        let ghost own = Size { metrics: 0, points: 1, exemplars: n as nat };
        t = a_point(n).and(t, Ghost(own), Ghost(rest));
    }
    assert(all.skip(0) =~= all);
    t
}

fn in_summs(ps: &Vec<SummaryDataPoint>) -> (r: Counts)
    ensures
        r.are(summs_size(ps@)),
{
    let ghost all = ps@;
    let mut i: usize = ps.len();
    let mut t = Counts::none();
    assert(all.skip(all.len() as int) =~= Seq::<SummaryDataPoint>::empty());
    while i > 0
        invariant
            i <= ps@.len(),
            all == ps@,
            t.are(summs_size(all.skip(i as int))),
        decreases i,
    {
        let ghost rest = summs_size(all.skip(i as int));
        i = i - 1;
        assert(all.skip(i as int).skip(1) =~= all.skip(i + 1));
        let ghost own = Size { metrics: 0, points: 1, exemplars: 0 };
        t = a_point(0).and(t, Ghost(own), Ghost(rest));
    }
    assert(all.skip(0) =~= all);
    t
}

fn in_data(m: &Metric) -> (r: Counts)
    ensures
        r.are(data_size(m.data)),
{
    match &m.data {
        None => Counts::none(),
        Some(MetricData::Gauge(g)) => in_numbers(&g.data_points),
        Some(MetricData::Sum(s)) => in_numbers(&s.data_points),
        Some(MetricData::Histogram(h)) => in_hists(&h.data_points),
        Some(MetricData::ExponentialHistogram(h)) => in_exps(&h.data_points),
        Some(MetricData::Summary(s)) => in_summs(&s.data_points),
    }
}

fn in_metrics(ms: &Vec<Metric>) -> (r: Counts)
    ensures
        r.are(metrics_size(ms@)),
{
    let ghost all = ms@;
    let mut i: usize = ms.len();
    let mut t = Counts::none();
    assert(all.skip(all.len() as int) =~= Seq::<Metric>::empty());
    while i > 0
        invariant
            i <= ms@.len(),
            all == ms@,
            t.are(metrics_size(all.skip(i as int))),
        decreases i,
    {
        let ghost rest = metrics_size(all.skip(i as int));
        i = i - 1;
        assert(all.skip(i as int)[0] == all[i as int]);
        assert(all.skip(i as int).skip(1) =~= all.skip(i + 1));
        let ghost one = Size { metrics: 1, points: 0, exemplars: 0 };
        let ghost data = data_size(all[i as int].data);
        let own = Counts { metrics: 1, points: 0, exemplars: 0 }.and(
            in_data(&ms[i]),
            Ghost(one),
            Ghost(data),
        );
        t = own.and(t, Ghost(plus(one, data)), Ghost(rest));
    }
    assert(all.skip(0) =~= all);
    t
}

fn in_scopes(sms: &Vec<ScopeMetrics>) -> (r: Counts)
    ensures
        r.are(scopes_size(sms@)),
{
    let ghost all = sms@;
    let mut i: usize = sms.len();
    let mut t = Counts::none();
    assert(all.skip(all.len() as int) =~= Seq::<ScopeMetrics>::empty());
    while i > 0
        invariant
            i <= sms@.len(),
            all == sms@,
            t.are(scopes_size(all.skip(i as int))),
        decreases i,
    {
        let ghost rest = scopes_size(all.skip(i as int));
        i = i - 1;
        assert(all.skip(i as int)[0] == all[i as int]);
        assert(all.skip(i as int).skip(1) =~= all.skip(i + 1));
        let ghost own = metrics_size(all[i as int].metrics@);
        t = in_metrics(&sms[i].metrics).and(t, Ghost(own), Ghost(rest));
    }
    assert(all.skip(0) =~= all);
    t
}

fn in_request(rms: &Vec<ResourceMetrics>) -> (r: Counts)
    ensures
        r.are(request_size(rms@)),
{
    let ghost all = rms@;
    let mut i: usize = rms.len();
    let mut t = Counts::none();
    assert(all.skip(all.len() as int) =~= Seq::<ResourceMetrics>::empty());
    while i > 0
        invariant
            i <= rms@.len(),
            all == rms@,
            t.are(request_size(all.skip(i as int))),
        decreases i,
    {
        let ghost rest = request_size(all.skip(i as int));
        i = i - 1;
        assert(all.skip(i as int)[0] == all[i as int]);
        assert(all.skip(i as int).skip(1) =~= all.skip(i + 1));
        let ghost own = scopes_size(all[i as int].scope_metrics@);
        t = in_scopes(&rms[i].scope_metrics).and(t, Ghost(own), Ghost(rest));
    }
    assert(all.skip(0) =~= all);
    t
}

/// Whether `more` on top of `have` can be numbered with 32 bits.
fn fits(have: usize, more: u64) -> (r: bool)
    ensures
        r == (have + more <= u32::MAX),
{
    let max: u64 = u32::MAX as u64;
    (have as u64) <= max && more <= max - (have as u64)
}

impl MetricsBuilder {
    /// Whether 32-bit numbers still number everything in a request, on top of
    /// what has been accumulated.
    pub fn can_number(&self, req: &ExportMetricsServiceRequest) -> (r: bool)
        requires
            self.wf(),
        ensures
            r == numbers_last(self@, request_size(req.resource_metrics@)),
    {
        let t = in_request(&req.resource_metrics);
        fits(self.next_metric_id as usize, t.metrics) && fits(self.num_rows(), t.points) && fits(
            self.next_exemplar_id as usize,
            t.exemplars,
        )
    }
}

} // verus!
