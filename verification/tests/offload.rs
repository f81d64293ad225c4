use mira_core::block::{
    dir_name, name_covering_no_log, parse_dir_name, scan, wal_watermarks, BlockName, Listed,
};
use mira_core::offload::{
    differs, is_there, landing, sizes, staging_dir, Found, Landing, Target,
};
use mira_core::path::{join, split};

fn file(name: &str, len: u64) -> Found {
    Found { name: name.to_string(), len, is_file: true }
}

#[test]
fn only_file_scheme_is_implemented() {
    assert!(Target::parse("file:///srv/cold").is_ok());
    let e = Target::parse("s3://bucket/prefix").unwrap_err().message();
    // The message names the scheme that was asked for and the one that works.
    assert!(
        e.contains("s3://bucket/prefix") && e.contains("file://"),
        "{e}"
    );
    assert!(Target::parse("file://").is_err());
}

#[test]
fn a_target_is_everything_after_the_scheme() {
    assert_eq!(Target::parse("file:///srv/cold").unwrap().root, "/srv/cold");
    assert_eq!(Target::parse("file://./cold").unwrap().root, "./cold");
    assert!(Target::parse("File:///x").is_err());
    assert!(Target::parse("").is_err());
}

#[test]
fn a_block_without_a_partition_has_no_address() {
    let t = Target { root: "/store".to_string() };
    assert!(t.push("logs", "loose").is_none());
    assert!(t.pull("logs", "loose", "/data", 7).is_none());
    assert!(split("/name").is_none());
    assert!(split("../name").is_none());
    assert!(split("p=2/..").is_none());
    assert_eq!(
        split("/d/logs/p=2//./b/"),
        Some(("p=2".to_string(), "b".to_string()))
    );
}

#[test]
fn paths_join_as_paths() {
    assert_eq!(join("/a", "b"), "/a/b");
    assert_eq!(join("/a/", "b"), "/a/b");
    assert_eq!(join("", "b"), "b");
    assert_eq!(join("/a", "/b"), "/b");
}

#[test]
fn a_copy_is_staged_and_lands_under_its_own_name() {
    let name = dir_name(7_200_000_000_000, 7_200_000_000_001, 7, 1, 0);
    let dir = format!("/data/logs/p=2/{name}");
    let t = Target { root: "/store".to_string() };
    let p = t.push("logs", &dir).unwrap();
    assert_eq!(p.dest_dir, "/store/logs/p=2");
    assert_eq!(p.dest, format!("/store/logs/p=2/{name}"));
    assert_eq!(p.staging, format!("logs-{name}"));
    assert_eq!(
        staging_dir("/store", &p.staging, 42),
        format!("/store/.tmp/logs-{name}-42")
    );
}

/// A restored block describes a log that no longer exists.
#[test]
fn a_restored_block_claims_no_progress_in_the_log_it_lands_beside() {
    let stored = dir_name(7_200_000_000_000, 7_200_000_000_001, 7, 1, 5000);
    let t = Target { root: "/store".to_string() };
    let p = t
        .pull("logs", &format!("/store/logs/p=2/{stored}"), "/fresh", 7)
        .unwrap();
    let landed = split(&p.dest).unwrap().1;
    assert_eq!(
        parse_dir_name(&landed),
        Some(BlockName {
            min_ts: 7_200_000_000_000,
            max_ts: 7_200_000_000_001,
            node: 7,
            seq: 1,
            wal_hi: 0,
        })
    );
    assert_eq!(p.staging, format!("logs-00000007-restore-{landed}"));
    let found = scan(&vec![Listed { dir: p.dest.clone(), name: landed.clone() }]);
    assert_eq!(found.len(), 1);
    assert_eq!(
        wal_watermarks(&found, &Vec::new(), &Vec::new(), Some(7)),
        [0, 0, 0],
        "a fresh log at sequence 0 was told 5000 of its frames are already published"
    );
    // A name that claims nothing, or is none, stays as it is.
    assert_eq!(name_covering_no_log(&landed), landed);
    assert_eq!(name_covering_no_log("not-a-block"), "not-a-block");
}

/// "Already there" is what licenses the unlink, so it is decided from the files
/// and not from the name.
#[test]
fn a_name_in_the_store_over_other_bytes_is_not_a_block_that_was_pushed() {
    let ours = sizes(vec![file("logs.arrow", 5), file("attr.idx", 7)]);
    let dest = "/store/logs/p=2/b";

    let theirs = sizes(vec![file("attr.idx", 7), file("logs.arrow", 19)]);
    let e = is_there(dest, &ours, &theirs).unwrap_err().message();
    assert!(e.contains("logs.arrow") && e.contains(dest), "{e}");
    assert_eq!(
        differs(&ours, &theirs).unwrap(),
        "logs.arrow is 19 bytes there, 5 here"
    );

    let short = sizes(vec![file("logs.arrow", 5)]);
    assert_eq!(differs(&ours, &short).unwrap(), "attr.idx is missing from it");

    let same = sizes(vec![file("logs.arrow", 5), file("attr.idx", 7)]);
    assert!(is_there(dest, &ours, &same).is_ok());

    let more = sizes(vec![file("logs.arrow", 5), file("attr.idx", 7), file("stray", 1)]);
    assert_eq!(
        differs(&ours, &more).unwrap(),
        "it holds stray, which this block does not"
    );
}

/// The same block on the two sides of the cold boundary is the same block.
#[test]
fn a_block_that_went_cold_after_it_was_pushed_is_still_that_block() {
    let hot = sizes(vec![file("logs.arrow", 5), file("attr.idx", 7)]);
    let cold = sizes(vec![file("logs.arrow", 4), file("attr.idx", 7), file("cold", 0)]);
    assert!(differs(&cold, &hot).is_none());
    assert!(differs(&hot, &cold).is_none());

    // Still a collision when the names disagree.
    let torn = sizes(vec![file("logs.arrow", 4), file("cold", 0)]);
    assert_eq!(differs(&hot, &torn).unwrap(), "attr.idx is missing from it");
    assert!(differs(&torn, &hot).is_some());
    // Both cold: lengths count again.
    let other = sizes(vec![file("logs.arrow", 3), file("attr.idx", 7), file("cold", 0)]);
    assert!(differs(&cold, &other).is_some());
}

#[test]
fn only_regular_files_are_part_of_a_block() {
    let found = vec![
        file("b", 2),
        Found { name: "a-dir".to_string(), len: 64, is_file: false },
        file("a", 1),
    ];
    let names: Vec<String> = sizes(found).into_iter().map(|f| f.name).collect();
    assert_eq!(names, ["a", "b"]);
}

#[test]
fn a_copy_that_cannot_land_says_which_way_it_failed() {
    // A block with no partition above it has no address in the store.
    let t = Target { root: "/store".to_string() };
    assert!(t.push("logs", "loose").is_none());
    assert!(t.pull("logs", "loose", "/data", 7).is_none());
    assert_eq!(landing(true, true), Landing::Copied);
    assert_eq!(landing(false, true), Landing::Present);
    assert_eq!(landing(false, false), Landing::Failed);
}

#[test]
fn the_catalog_is_the_stores_own_listing() {
    let t = Target { root: "/store".to_string() };
    let listed = |name: String| Listed { dir: format!("/store/logs/p=2/{name}"), name };
    let out = t.list(&vec![
        listed(dir_name(20, 30, 7, 2, 0)),
        listed(".tmp".to_string()),
        listed(dir_name(10, 90, 7, 9, 4)),
    ]);
    let seqs: Vec<u64> = out.iter().map(|b| b.seq).collect();
    assert_eq!(seqs, [9, 2]);
    assert_eq!(out[0].dir, format!("/store/logs/p=2/{}", dir_name(10, 90, 7, 9, 4)));
}
