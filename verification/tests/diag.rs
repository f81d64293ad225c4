use mira_core::diag::{dump, wal_scope, Decimals, Inflight, Probe, Probes, Scope};

fn decimals(p: &Probe) -> Decimals {
    Decimals {
        total: format!("{:.3}", p.ns as f64 / 1e9),
        mean: format!("{:.3}", p.mean_ns() as f64 / 1e6),
        max: format!("{:.3}", p.max_ns as f64 / 1e6),
    }
}

fn line(p: &Probe, name: &str) -> String {
    p.line(name, &decimals(p))
}

#[test]
fn a_probe_summarises_what_it_was_given() {
    let mut p = Probe::new();
    assert!(line(&p, "empty").contains("mean=   0.000ms"));
    p.record(1_000_000);
    p.record(50_000_000);
    p.record(500_000_000);
    let line = line(&p, "x");
    assert!(line.contains("n=3"), "{line}");
    // 551 ms over three samples.
    assert!(line.contains("mean= 183.667ms"), "{line}");
    assert!(line.contains("max=  500.000ms"), "{line}");
    // Strictly over: 1 ms is in neither bucket, 50 ms is in one, 500 in both.
    assert!(line.contains(">10ms=2"), "{line}");
    assert!(line.contains(">100ms=1"), "{line}");
}

#[test]
fn the_dump_names_every_probe_the_diagnosis_reads() {
    let mut probes = Probes::new();
    let scope = wal_scope(&mut probes.wal_inflight);
    let d: Vec<Decimals> = probes.list().iter().map(|(_, p)| decimals(p)).collect();
    let out = dump(&probes, &d);
    for name in [
        "submit.total",
        "submit.admit",
        "submit.wait_ack",
        "wal.encode",
        "wal.lock_wait",
        "wal.held",
        "wal.write",
        "runtime.lag",
        "wal.inflight_max",
    ] {
        assert!(out.contains(name), "{name} is missing from:{out}");
    }
    assert_eq!(out.trim_start().lines().count(), 9, "{out}");
    // The scope is live, so the high-water mark has seen at least one.
    assert!(probes.wal_inflight.max >= 1);
    assert!(probes.wal_inflight.now >= 1);
    scope.finish(&mut probes.wal_inflight);
    assert_eq!(probes.wal_inflight.now, 0);
    assert_eq!(probes.wal_inflight.max, 1);
}

#[test]
fn a_line_is_laid_out_in_columns() {
    let mut p = Probe::new();
    p.record(2_000_000_000);
    assert_eq!(
        line(&p, "wal.held"),
        "wal.held           n=1         total=    2.000s mean=2000.000ms max= 2000.000ms >10ms=1        >100ms=1"
    );
}

#[test]
fn a_sample_on_a_threshold_is_not_over_it() {
    let mut p = Probe::default();
    p.record(10_000_000);
    p.record(100_000_000);
    assert_eq!((p.over_10ms, p.over_100ms), (1, 0));
    assert_eq!((p.n, p.ns, p.max_ns), (2, 110_000_000, 100_000_000));
    assert_eq!(p.mean_ns(), 55_000_000);
}

#[test]
fn a_scope_records_what_passed() {
    let mut p = Probe::new();
    Scope::new(100).finish(&mut p, 175);
    Scope::new(100).finish(&mut p, 90);
    assert_eq!((p.n, p.ns, p.max_ns), (2, 75, 75));
}

#[test]
fn the_high_water_mark_stays() {
    let mut g = Inflight::new();
    g.enter();
    g.enter();
    g.leave();
    g.enter();
    g.leave();
    g.leave();
    assert_eq!((g.now, g.max), (0, 2));
}
