use mira_core::attrs::AttrsBuilder;
use mira_core::block::{
    dir_name, node_id, parse_dir_name, partition_name, scan, staging_name, sweep_staging,
    wal_watermarks, BlockName, BlockRef, Listed, MAX_COMPACT_PER_SWEEP,
};
use mira_core::error::{Error, IoKind};
use mira_core::guard::{check_filesystem, check_format, check_fs_type, fs_type, FORMAT_VERSION};
use mira_core::publish::{compact_name, is_table_file, publish, stage};
use mira_core::scan::Named;
use mira_core::schema::LOGS_BLOCK_TABLES;
use mira_core::signal::{Open, Sealed};
use mira_core::source::{load, sources, Origin, Src};
use mira_core::sweep::{compact, expire, offer, reported, Offer, Outcome};
use mira_core::table::{Column, Data, Field, Table};

fn table(rows: usize) -> Table {
    Table {
        fields: vec![Field {
            name: "id".to_string(),
            column: Column { valid: None, data: Data::U32((0..rows as u32).collect()) },
        }],
        rows,
    }
}

fn named(name: &str, rows: usize) -> Named {
    Named { name: name.to_string(), table: table(rows) }
}

fn sealed(min_ts: i64, max_ts: i64) -> Sealed {
    Sealed::with(3, vec![named("logs", 3)], min_ts, max_ts)
}

fn block(min_ts: i64, max_ts: i64, seq: u64, wal_hi: u64) -> BlockRef {
    let node = node_id("a");
    BlockRef {
        dir: dir_name(min_ts, max_ts, node, seq, wal_hi),
        min_ts,
        max_ts,
        node,
        seq,
        wal_hi,
    }
}

fn name(min_ts: i64, max_ts: i64, node: u32, seq: u64, wal_hi: u64) -> BlockName {
    BlockName { min_ts, max_ts, node, seq, wal_hi }
}

#[test]
fn a_block_name_from_before_the_log_parses_with_no_watermark() {
    let legacy = format!("{:020}-{:020}-{:08x}-{:012}", 10, 20, 0xabu32, 7u64);
    assert_eq!(parse_dir_name(&legacy), Some(name(10, 20, 0xab, 7, 0)));
    assert_eq!(
        parse_dir_name(&dir_name(10, 20, 0xab, 7, 99)),
        Some(name(10, 20, 0xab, 7, 99))
    );
    // A sixth field is not a name from the future to be read hopefully.
    assert_eq!(parse_dir_name(&format!("{legacy}-1-2")), None);
}

#[test]
fn a_name_is_five_fields_of_fixed_width() {
    assert_eq!(
        dir_name(1, 2, 3, 4, 5),
        format!("{:020}-{:020}-{:08x}-{:012}-{:020}", 1, 2, 3, 4, 5)
    );
    assert_eq!(
        parse_dir_name(&dir_name(i64::MAX, i64::MAX, u32::MAX, u64::MAX, u64::MAX)),
        Some(name(i64::MAX, i64::MAX, u32::MAX, u64::MAX, u64::MAX))
    );
    // A negative time writes a separator of its own.
    assert_eq!(parse_dir_name(&dir_name(-1, 2, 3, 4, 5)), None);
    for bad in ["", "1", "1-2-3", "a-2-3-4", "1-2-x-4", "1-2-3-4-", "1-2-3-4-5-6"] {
        assert_eq!(parse_dir_name(bad), None, "{bad}");
    }
}

#[test]
fn a_newer_format_version_is_refused_and_an_older_one_is_not() {
    let path = "logs.arrow";
    // Written before the key existed.
    check_format(path, None).unwrap();
    check_format(path, Some("1")).unwrap();

    let e = check_format(path, Some("2")).unwrap_err();
    assert!(
        matches!(&e, Error::Io { kind: IoKind::Unsupported, .. }),
        "{}",
        e.message()
    );
    let e = check_format(path, Some("banana")).unwrap_err();
    assert!(
        matches!(&e, Error::Io { kind: IoKind::InvalidData, .. }),
        "{}",
        e.message()
    );
}

/// Readers take the columns of an attribute table by position.
#[test]
fn the_positionally_read_columns_are_pinned_to_the_format_version() {
    let t = AttrsBuilder::new("log_attrs.key").finish().unwrap();
    let names: Vec<&str> = t.fields.iter().map(|f| f.name.as_str()).collect();
    assert_eq!(
        names,
        [
            "parent_id",
            "key",
            "type",
            "str",
            "int",
            "double",
            "bool",
            "bytes",
            "ser"
        ],
        "currently version {FORMAT_VERSION}"
    );
}

#[test]
fn the_watermark_is_the_highest_per_signal_not_the_newest() {
    let none = Vec::new();
    assert_eq!(wal_watermarks(&none, &none, &none, None), [0, 0, 0]);
    let logs = vec![block(1_000, 2_000, 1, 9), block(5_000, 6_000, 0, 40)];
    let traces = vec![block(1_000, 2_000, 0, 3)];
    assert_eq!(wal_watermarks(&logs, &traces, &none, None), [40, 3, 0]);
    // Only the blocks of one replica, where one is asked for.
    let node = node_id("a");
    assert_eq!(wal_watermarks(&logs, &traces, &none, Some(node)), [40, 3, 0]);
    assert_eq!(wal_watermarks(&logs, &traces, &none, Some(node ^ 1)), [0, 0, 0]);
}

#[test]
fn a_network_filesystem_refuses_to_start_and_fuse_only_warns() {
    let path = "/data";
    check_fs_type(path, None).unwrap();
    check_fs_type(path, Some("fuse")).unwrap();

    let e = check_fs_type(path, Some("NFS")).unwrap_err();
    assert!(
        matches!(&e, Error::NetworkFilesystem { fs, .. } if fs == "NFS"),
        "{}",
        e.message()
    );
    // The operator has to be told which mount type.
    assert!(e.message().contains("NFS"), "{}", e.message());
}

#[test]
fn a_filesystem_is_told_by_its_magic() {
    assert_eq!(fs_type(0x6969), Some("NFS"));
    assert_eq!(fs_type(0xef53), None);
    assert!(check_filesystem("/data", 0xef53).is_ok());
    assert!(check_filesystem("/data", 0x6969).is_err());
}

#[test]
fn a_source_with_neither_a_directory_nor_tables_reads_as_empty() {
    let src = Src { node: 0, seq: 0, min_ts: 0, max_ts: 1, origin: Origin::Disk(0) };
    assert!(load(None, "logs").is_none());
    assert!(src.overlaps(0, 1));
}

#[test]
fn a_published_copy_wins_over_its_snapshot() {
    let disk = vec![block(1_000, 2_000, 1, 0)];
    let open = |seq: u64| Open { node: node_id("a"), seq, sealed: sealed(3_000, 4_000) };
    let all = sources(&disk, &vec![open(1), open(2)]);
    let origins: Vec<Origin> = all.iter().map(|s| s.origin).collect();
    assert_eq!(origins, [Origin::Disk(0), Origin::Open(1)]);
    assert_eq!((all[1].min_ts, all[1].max_ts), (3_000, 4_000));

    let tables = vec![named("logs", 3)];
    assert!(load(Some(&tables), "logs").is_some());
    assert!(load(Some(&tables), "log_attrs").is_none());
}

#[test]
fn the_catalog_is_sorted_and_holds_only_blocks() {
    let listed = |n: String| Listed { dir: format!("/d/{n}"), name: n };
    let out = scan(&vec![
        listed(dir_name(5, 9, 1, 1, 0)),
        listed("lost+found".to_string()),
        listed(dir_name(5, 6, 1, 0, 0)),
        listed(dir_name(2, 9, 1, 7, 0)),
    ]);
    let keys: Vec<(i64, u64)> = out.iter().map(|b| (b.min_ts, b.seq)).collect();
    assert_eq!(keys, [(2, 7), (5, 0), (5, 1)]);
    assert_eq!(out[0].dir, format!("/d/{}", dir_name(2, 9, 1, 7, 0)));
}

#[test]
fn a_block_is_staged_beside_and_published_under_its_hour() {
    let s = sealed(7_200_000_000_001, 7_300_000_000_000);
    let p = publish("/data", "logs", 0xab, 7, 99, &s);
    let leaf = dir_name(7_200_000_000_001, 7_300_000_000_000, 0xab, 7, 99);
    assert_eq!(p.staging, "/data/.tmp");
    assert_eq!(
        p.tmp,
        format!(
            "/data/.tmp/logs-000000ab-{:012}-{:020}-{:020}",
            7, 7_200_000_000_001i64, 7_300_000_000_000i64
        )
    );
    assert_eq!(p.signal_dir, "/data/logs");
    assert_eq!(p.partition, "/data/logs/p=2");
    assert_eq!(p.block.dir, format!("/data/logs/p=2/{leaf}"));
    assert_eq!(p.block.wal_hi, 99);
    // What is listed afterwards is what was published.
    let found = scan(&vec![Listed { dir: p.block.dir.clone(), name: leaf }]);
    assert_eq!(found.len(), 1);
    assert_eq!(
        (found[0].min_ts, found[0].max_ts, found[0].node, found[0].seq, found[0].wal_hi),
        (7_200_000_000_001, 7_300_000_000_000, 0xab, 7, 99)
    );
    assert_eq!(partition_name(-1), "p=-1");
    assert_eq!(partition_name(3_600_000_000_000), "p=1");
}

#[test]
fn a_replica_sweeps_its_own_staging_only() {
    let own = staging_name("logs", 7, 1, 2, 3);
    let names = vec![
        own.clone(),
        staging_name("logs", 8, 1, 2, 3),
        staging_name("traces", 7, 1, 2, 3),
        "logs-00000007-restore-x".to_string(),
    ];
    assert_eq!(sweep_staging(&names, "logs", 7), [0, 3]);
}

#[test]
fn a_table_without_rows_is_not_written() {
    let s = Sealed::with(3, vec![named("logs", 3), named("log_attrs", 0), named("resources", 1)], 1, 2);
    let files: Vec<(String, usize)> = stage(&s).into_iter().map(|f| (f.file, f.table)).collect();
    assert_eq!(
        files,
        [("logs.arrow".to_string(), 0), ("resources.arrow".to_string(), 2)]
    );
    assert_eq!(
        LOGS_BLOCK_TABLES,
        ["logs", "log_attrs", "resources", "resource_attrs", "scope_attrs"]
    );
}

#[test]
fn only_tables_are_rewritten() {
    assert!(is_table_file("logs.arrow"));
    for other in [".arrow", "arrow", "attr.idx", "cold", "logs.arrow.tmp"] {
        assert!(!is_table_file(other), "{other}");
    }
    assert_eq!(compact_name("logs.arrow", 0xab), "logs.000000ab.tmp");
}

#[test]
fn retention_takes_exactly_what_is_older() {
    let blocks = vec![block(0, 10, 0, 0), block(0, 20, 1, 0), block(0, 9, 2, 0)];
    assert_eq!(expire(&blocks, 10), [2]);
    assert_eq!(expire(&blocks, 11), [0, 2]);
    assert_eq!(
        reported(&vec![Outcome::Done, Outcome::Gone, Outcome::Failed, Outcome::Done]),
        2
    );
}

#[test]
fn a_sweep_compacts_at_most_its_budget_and_the_next_one_finishes() {
    let n = MAX_COMPACT_PER_SWEEP + 1;
    let blocks: Vec<BlockRef> = (0..n as u64).map(|i| block(1_000, 2_000, i, 0)).collect();
    let mut cold = vec![false; n];
    let sweep = |cold: &mut Vec<bool>| {
        let tried = compact(&blocks, cold, i64::MAX);
        for i in &tried {
            cold[*i] = true;
        }
        reported(&vec![Outcome::Done; tried.len()])
    };
    assert_eq!(sweep(&mut cold), MAX_COMPACT_PER_SWEEP);
    assert_eq!(cold.iter().filter(|c| **c).count(), MAX_COMPACT_PER_SWEEP);
    // The next sweep skips the eight already marked and takes the ninth.
    assert_eq!(sweep(&mut cold), 1);
    assert_eq!(cold.iter().filter(|c| **c).count(), n);
    // And a third has nothing left to do.
    assert_eq!(sweep(&mut cold), 0);
}

#[test]
fn a_sweep_takes_the_oldest_that_are_due() {
    let blocks: Vec<BlockRef> = (0..11).map(|i| block(0, 10, i, 0)).collect();
    let mut cold = vec![false; 11];
    let first = compact(&blocks, &cold, 100);
    assert_eq!(first, [0, 1, 2, 3, 4, 5, 6, 7]);
    for i in first {
        cold[i] = true;
    }
    assert_eq!(compact(&blocks, &cold, 100), [8, 9, 10]);
    assert!(compact(&blocks, &cold, 10).is_empty());
    assert_eq!(offer(8, &blocks[0], false, 100), Offer::Stop);
    assert_eq!(offer(0, &blocks[0], true, 100), Offer::Skip);
    assert_eq!(offer(0, &blocks[0], false, 100), Offer::Try);
}

#[test]
fn every_error_says_what_went_wrong() {
    let p = || "/x".to_string();
    let cases: Vec<(Error, &str)> = vec![
        (
            Error::Io { path: p(), kind: IoKind::Other, what: "boom".to_string() },
            "io error on /x: boom",
        ),
        (Error::Arrow("no".to_string()), "no"),
        (
            Error::DictionaryFull("a.key"),
            "dictionary key space exhausted for column `a.key`; seal the block",
        ),
        (
            Error::BadMagic { path: p() },
            "/x is not an Arrow IPC file (bad ARROW1 magic)",
        ),
        (
            Error::BadChecksum { path: p(), expected: 0xab, actual: 0xffff_ffff },
            "/x failed checksum: footer says 0x000000ab, body hashes to 0xffffffff",
        ),
        (
            Error::MissingMetadata { path: p(), key: "k" },
            "/x has no k in its IPC footer metadata; not a Mira block",
        ),
        (
            Error::Undecodable { path: p(), source: "bad frame".to_string() },
            "/x: this block's body cannot be decoded: bad frame",
        ),
        (
            Error::WalFrameTooLarge { len: 9, max: 8 },
            "export of 9 bytes exceeds the 8-byte WAL frame limit",
        ),
        (
            Error::WalCorrupt { path: p(), why: "short" },
            "/x: corrupt write-ahead log frame: short",
        ),
        (
            Error::WalVersion { path: p(), found: 2, expected: 1 },
            "/x: write-ahead log version 2, this build writes 1",
        ),
        (
            Error::OffloadCollision { dest: p(), why: "y".to_string() },
            "/x is not a copy of this block: y",
        ),
    ];
    for (e, text) in cases {
        assert_eq!(e.message(), text);
    }
    let e = Error::NotWritable { path: p(), source: "read-only".to_string() };
    assert!(e.message().starts_with("/x is not writable: read-only. "));
}
