//! Where an export's latency goes, counted from inside the process.
//!
//! Counters are cumulative from the start: two dumps some seconds apart are a
//! rate, and one dump is a mean over the run. What they hold is counted here;
//! taking the time and writing a number of seconds with three decimals is left
//! to the program around it.

use crate::text::{decimal, push_decimal, push_str};
use vstd::prelude::*;
use vstd::string::*;

verus! {

/// From where on a sample counts as slow.
pub const SLOW_NS: u64 = 10_000_000;

/// From where on a sample counts as very slow.
pub const VERY_SLOW_NS: u64 = 100_000_000;

/// Count, total, maximum and two tail buckets for one interval. Counts and the
/// total wrap at 64 bits.
#[derive(Debug, Clone, Copy, PartialEq, Eq, Structural)]
pub struct Probe {
    pub n: u64,
    pub ns: u64,
    pub max_ns: u64,
    pub over_10ms: u64,
    pub over_100ms: u64,
}

/// The total, the mean and the maximum of a probe in words: seconds,
/// milliseconds and milliseconds, each with three decimals.
pub struct Decimals {
    pub total: String,
    pub mean: String,
    pub max: String,
}

/// Some spaces.
pub open spec fn blanks(n: nat) -> Seq<char> {
    Seq::new(n, |i: int| ' ')
}

/// A text with spaces behind it, up to a width.
pub open spec fn left(s: Seq<char>, width: nat) -> Seq<char> {
    if s.len() >= width {
        s
    } else {
        s + blanks((width - s.len()) as nat)
    }
}

/// A text with spaces before it, up to a width.
pub open spec fn right(s: Seq<char>, width: nat) -> Seq<char> {
    if s.len() >= width {
        s
    } else {
        blanks((width - s.len()) as nat) + s
    }
}

fn push_blanks(out: &mut String, n: usize)
    ensures
        final(out)@ == old(out)@ + blanks(n as nat),
{
    let ghost was = out@;
    let mut i: usize = 0;
    assert(out@ =~= was + blanks(0));
    while i < n
        invariant
            i <= n,
            out@ == was + blanks(i as nat),
        decreases n - i,
    {
        out.push(' ');
        assert(out@ =~= was + blanks((i + 1) as nat));
        i = i + 1;
    }
}

fn push_left(out: &mut String, s: &str, width: usize)
    ensures
        final(out)@ == old(out)@ + left(s@, width as nat),
{
    push_str(out, s);
    let len = s.unicode_len();
    if len < width {
        push_blanks(out, width - len);
    }
    assert(out@ =~= old(out)@ + left(s@, width as nat));
}

fn push_right(out: &mut String, s: &str, width: usize)
    ensures
        final(out)@ == old(out)@ + right(s@, width as nat),
{
    let len = s.unicode_len();
    if len < width {
        push_blanks(out, width - len);
    }
    push_str(out, s);
    assert(out@ =~= old(out)@ + right(s@, width as nat));
}

fn digits_of(n: u64) -> (s: String)
    ensures
        s@ == decimal(n as nat),
{
    let mut s: String = String::new();
    push_decimal(&mut s, n);
    assert(s@ =~= decimal(n as nat));
    s
}

/// One line of a dump.
pub open spec fn line_text(p: Probe, name: Seq<char>, d: Decimals) -> Seq<char> {
    left(name, 18) + " n="@ + left(decimal(p.n as nat), 9) + " total="@ + right(d.total@, 9)
        + "s mean="@ + right(d.mean@, 8) + "ms max="@ + right(d.max@, 9) + "ms >10ms="@ + left(
        decimal(p.over_10ms as nat),
        8,
    ) + " >100ms="@ + decimal(p.over_100ms as nat)
}

impl Probe {
    /// Nothing counted.
    pub open spec fn none() -> Probe {
        Probe { n: 0, ns: 0, max_ns: 0, over_10ms: 0, over_100ms: 0 }
    }

    /// The counts with one sample added.
    pub open spec fn with(self, ns: u64) -> Probe {
        Probe {
            n: self.n.wrapping_add(1),
            ns: self.ns.wrapping_add(ns),
            max_ns: if ns > self.max_ns {
                ns
            } else {
                self.max_ns
            },
            over_10ms: if ns > SLOW_NS {
                self.over_10ms.wrapping_add(1)
            } else {
                self.over_10ms
            },
            over_100ms: if ns > VERY_SLOW_NS {
                self.over_100ms.wrapping_add(1)
            } else {
                self.over_100ms
            },
        }
    }

    pub fn new() -> (p: Probe)
        ensures
            p == Probe::none(),
    {
        Probe { n: 0, ns: 0, max_ns: 0, over_10ms: 0, over_100ms: 0 }
    }

    /// Count one sample.
    pub fn record(&mut self, ns: u64)
        ensures
            *final(self) == old(self).with(ns),
    {
        self.n = self.n.wrapping_add(1);
        self.ns = self.ns.wrapping_add(ns);
        if ns > self.max_ns {
            self.max_ns = ns;
        }
        if ns > SLOW_NS {
            self.over_10ms = self.over_10ms.wrapping_add(1);
        }
        if ns > VERY_SLOW_NS {
            self.over_100ms = self.over_100ms.wrapping_add(1);
        }
    }

    /// The mean of the samples, or zero where there are none.
    pub fn mean_ns(&self) -> (r: u64)
        ensures
            r == if self.n == 0 {
                0
            } else {
                self.ns as int / self.n as int
            },
    {
        if self.n == 0 {
            0
        } else {
            self.ns / self.n
        }
    }

    /// One line of a dump.
    pub fn line(&self, name: &str, d: &Decimals) -> (s: String)
        ensures
            s@ == line_text(*self, name@, *d),
    {
        let mut s: String = String::new();
        push_left(&mut s, name, 18);
        push_str(&mut s, " n=");
        push_left(&mut s, digits_of(self.n).as_str(), 9);
        push_str(&mut s, " total=");
        push_right(&mut s, d.total.as_str(), 9);
        push_str(&mut s, "s mean=");
        push_right(&mut s, d.mean.as_str(), 8);
        push_str(&mut s, "ms max=");
        push_right(&mut s, d.max.as_str(), 9);
        push_str(&mut s, "ms >10ms=");
        push_left(&mut s, digits_of(self.over_10ms).as_str(), 8);
        push_str(&mut s, " >100ms=");
        push_decimal(&mut s, self.over_100ms);
        assert(s@ =~= line_text(*self, name@, *d));
        s
    }
}

impl Default for Probe {
    fn default() -> (p: Probe)
        ensures
            p == Probe::none(),
    {
        Probe::new()
    }
}

/// A measurement that has begun, by the clock it began at.
#[derive(Debug, Clone, Copy, PartialEq, Eq, Structural)]
pub struct Scope {
    pub since_ns: u64,
}

impl Scope {
    /// Begin to measure.
    pub fn new(now_ns: u64) -> (s: Scope)
        ensures
            s.since_ns == now_ns,
    {
        Scope { since_ns: now_ns }
    }

    /// Count the time that has passed. A clock that went back counts as none.
    pub fn finish(self, p: &mut Probe, now_ns: u64)
        ensures
            *final(p) == old(p).with(
                if now_ns > self.since_ns {
                    (now_ns - self.since_ns) as u64
                } else {
                    0
                },
            ),
    {
        if now_ns > self.since_ns {
            p.record(now_ns - self.since_ns);
        } else {
            p.record(0);
        }
    }
}

/// Callers that are inside a section now, and the most that ever were.
#[derive(Debug, Clone, Copy, PartialEq, Eq, Structural)]
pub struct Inflight {
    pub now: u64,
    pub max: u64,
}

impl Inflight {
    pub fn new() -> (g: Inflight)
        ensures
            g == (Inflight { now: 0, max: 0 }),
    {
        Inflight { now: 0, max: 0 }
    }

    /// Another caller goes in.
    pub fn enter(&mut self)
        ensures
            final(self).now == old(self).now.wrapping_add(1),
            final(self).max == if final(self).now > old(self).max {
                final(self).now
            } else {
                old(self).max
            },
    {
        self.now = self.now.wrapping_add(1);
        if self.now > self.max {
            self.max = self.now;
        }
    }

    /// A caller comes out.
    pub fn leave(&mut self)
        ensures
            final(self).now == old(self).now.wrapping_sub(1),
            final(self).max == old(self).max,
    {
        self.now = self.now.wrapping_sub(1);
    }
}

/// A caller that is inside.
#[derive(Debug)]
pub struct WalScope {}

/// Go in.
pub fn wal_scope(g: &mut Inflight) -> (s: WalScope)
    ensures
        final(g).now == old(g).now.wrapping_add(1),
        final(g).max == if final(g).now > old(g).max {
            final(g).now
        } else {
            old(g).max
        },
{
    g.enter();
    WalScope {}
}

impl WalScope {
    /// Come out.
    pub fn finish(self, g: &mut Inflight)
        ensures
            final(g).now == old(g).now.wrapping_sub(1),
            final(g).max == old(g).max,
    {
        g.leave();
    }
}

/// The probes of the export path.
#[derive(Debug, Clone, Copy, PartialEq, Eq, Structural)]
pub struct Probes {
    /// The whole of a submit, so that the parts can be checked against the sum.
    pub submit_total: Probe,
    /// Admission.
    pub submit_admit: Probe,
    /// Waiting for the publish, where there is no log.
    pub submit_wait_ack: Probe,
    /// The re-encoding an export pays to be framed.
    pub wal_encode: Probe,
    /// From asking for the log's lock to holding it.
    pub wal_lock_wait: Probe,
    /// Holding it.
    pub wal_held: Probe,
    /// Of that, just the writes.
    pub wal_write: Probe,
    /// How late a task that asked to sleep woke.
    pub runtime_lag: Probe,
    /// Callers inside the log's append.
    pub wal_inflight: Inflight,
}

impl Probes {
    /// The probes of a dump, in order, by name.
    pub open spec fn listed(self) -> Seq<(Seq<char>, Probe)> {
        seq![
            ("submit.total"@, self.submit_total),
            ("submit.admit"@, self.submit_admit),
            ("submit.wait_ack"@, self.submit_wait_ack),
            ("wal.encode"@, self.wal_encode),
            ("wal.lock_wait"@, self.wal_lock_wait),
            ("wal.held"@, self.wal_held),
            ("wal.write"@, self.wal_write),
            ("runtime.lag"@, self.runtime_lag),
        ]
    }

    pub fn new() -> (p: Probes)
        ensures
            forall|i: int| 0 <= i < p.listed().len() ==> (#[trigger] p.listed()[i]).1 == Probe::none(),
            p.wal_inflight == (Inflight { now: 0, max: 0 }),
    {
        Probes {
            submit_total: Probe::new(),
            submit_admit: Probe::new(),
            submit_wait_ack: Probe::new(),
            wal_encode: Probe::new(),
            wal_lock_wait: Probe::new(),
            wal_held: Probe::new(),
            wal_write: Probe::new(),
            runtime_lag: Probe::new(),
            wal_inflight: Inflight::new(),
        }
    }

    /// The probes of a dump, in order, by name.
    pub fn list(&self) -> (v: Vec<(&'static str, Probe)>)
        ensures
            v@.len() == self.listed().len(),
            forall|i: int|
                0 <= i < v@.len() ==> (#[trigger] v@[i]).0@ == self.listed()[i].0 && v@[i].1
                    == self.listed()[i].1,
    {
        let mut v: Vec<(&'static str, Probe)> = Vec::new();
        v.push(("submit.total", self.submit_total));
        v.push(("submit.admit", self.submit_admit));
        v.push(("submit.wait_ack", self.submit_wait_ack));
        v.push(("wal.encode", self.wal_encode));
        v.push(("wal.lock_wait", self.wal_lock_wait));
        v.push(("wal.held", self.wal_held));
        v.push(("wal.write", self.wal_write));
        v.push(("runtime.lag", self.runtime_lag));
        v
    }
}

/// The lines of the first `n` probes, each ended.
pub open spec fn lines_text(listed: Seq<(Seq<char>, Probe)>, d: Seq<Decimals>, n: nat) -> Seq<char>
    decreases n,
{
    if n == 0 {
        Seq::empty()
    } else {
        lines_text(listed, d, (n - 1) as nat) + line_text(
            listed[n - 1].1,
            listed[n - 1].0,
            d[n - 1],
        ) + seq!['\n']
    }
}

/// The text of a dump.
pub open spec fn dump_text(p: Probes, d: Seq<Decimals>) -> Seq<char> {
    seq!['\n'] + lines_text(p.listed(), d, p.listed().len()) + "wal.inflight_max   "@ + decimal(
        p.wal_inflight.max as nat,
    ) + seq!['\n']
}

/// Every probe, a line each. `d` gives the numbers of each in words, in the
/// order of [`Probes::list`].
pub fn dump(p: &Probes, d: &Vec<Decimals>) -> (s: String)
    requires
        d@.len() == p.listed().len(),
    ensures
        s@ == dump_text(*p, d@),
{
    let mut s: String = String::new();
    s.push('\n');
    let v = p.list();
    let ghost listed = p.listed();
    let mut i: usize = 0;
    assert(s@ =~= seq!['\n'] + lines_text(listed, d@, 0));
    while i < v.len()
        invariant
            i <= v@.len(),
            v@.len() == listed.len(),
            d@.len() == listed.len(),
            forall|i: int|
                0 <= i < v@.len() ==> (#[trigger] v@[i]).0@ == listed[i].0 && v@[i].1 == listed[i].1,
            s@ == seq!['\n'] + lines_text(listed, d@, i as nat),
        decreases v@.len() - i,
    {
        let (name, probe) = v[i];
        assert(v@[i as int].0@ == listed[i as int].0);
        let line = probe.line(name, &d[i]);
        push_str(&mut s, line.as_str());
        s.push('\n');
        assert(s@ =~= seq!['\n'] + lines_text(listed, d@, (i + 1) as nat));
        i = i + 1;
    }
    push_str(&mut s, "wal.inflight_max   ");
    push_decimal(&mut s, p.wal_inflight.max);
    s.push('\n');
    assert(s@ =~= dump_text(*p, d@));
    s
}

/// The counts after some samples.
pub open spec fn after(p: Probe, samples: Seq<u64>) -> Probe
    decreases samples.len(),
{
    if samples.len() == 0 {
        p
    } else {
        after(p, samples.drop_last()).with(samples.last())
    }
}

/// The maximum is that of the samples, every very slow sample is a slow one,
/// and no bucket counts more than there were. (Fewer samples than the counts
/// can hold.)
pub proof fn law_a_probe_summarises_its_samples(samples: Seq<u64>)
    requires
        samples.len() <= u64::MAX,
    ensures
        ({
            let p = after(Probe::none(), samples);
            &&& p.n == samples.len()
            &&& p.over_100ms <= p.over_10ms <= p.n
            &&& forall|i: int| 0 <= i < samples.len() ==> #[trigger] samples[i] <= p.max_ns
            &&& samples.len() > 0 ==> samples.contains(p.max_ns) || p.max_ns == 0
        }),
    decreases samples.len(),
{
    if samples.len() > 0 {
        let s = samples.drop_last();
        law_a_probe_summarises_its_samples(s);
        let before = after(Probe::none(), s);
        let p = after(Probe::none(), samples);
        assert forall|i: int| 0 <= i < samples.len() implies #[trigger] samples[i] <= p.max_ns by {
            if i < s.len() {
                assert(samples[i] == s[i]);
            }
        }
        assert(samples[samples.len() - 1] == samples.last());
        if s.len() > 0 && s.contains(before.max_ns) {
            let k = s.index_of(before.max_ns);
            assert(samples[k] == before.max_ns);
        }
    }
}

} // verus!
