use mira_core::bloom::{build, may_contain, HEADER, VERSION};
use mira_core::identity::hash64;
use mira_core::table::{Column, Data};

fn id(n: u64) -> [u8; 16] {
    let mut b = [0u8; 16];
    // Not a counter: trace ids are uniform, and a test over 0, 1, 2 would
    // measure a case that cannot happen.
    b[..8].copy_from_slice(&hash64(&n.to_le_bytes()).to_le_bytes());
    b[8..].copy_from_slice(&hash64(&(!n).to_le_bytes()).to_le_bytes());
    b
}

fn column(ids: Vec<[u8; 16]>) -> Column {
    Column {
        valid: None,
        data: Data::Fixed(ids.iter().map(|v| v.to_vec()).collect()),
    }
}

fn filter(n: u64) -> Vec<u8> {
    build(&column((0..n).map(id).collect())).unwrap()
}

#[test]
fn no_false_negatives_and_few_false_positives() {
    let n = 10_000u64;
    let f = filter(n);
    for i in 0..n {
        assert!(may_contain(&f, &id(i)), "false negative at {i}");
    }
    let probes = 100_000u64;
    let fp = (n..n + probes).filter(|&i| may_contain(&f, &id(i))).count();
    let rate = fp as f64 / probes as f64;
    assert!(rate < 0.02, "false positive rate {rate}");
}

#[test]
fn a_damaged_filter_says_maybe() {
    let f = filter(1_000);
    let probe = id(999_999);
    assert!(!may_contain(&f, &probe), "test needs a known-absent id");

    assert!(may_contain(&[], &probe), "empty");
    assert!(may_contain(&f[..HEADER - 1], &probe), "truncated header");
    assert!(may_contain(&f[..f.len() - 8], &probe), "truncated body");

    let mut bad = f.clone();
    bad[0] = b'X';
    assert!(may_contain(&bad, &probe), "wrong magic");

    let mut bad = f.clone();
    bad[4] = VERSION + 1;
    assert!(may_contain(&bad, &probe), "future version");

    // A single flipped bit in the bitmap is what the checksum is for.
    let mut bad = f.clone();
    bad[HEADER + 3] ^= 0x40;
    assert!(may_contain(&bad, &probe), "corrupt body");
}

/// Constant bytes at both ends, variation in the middle: the shape of every
/// counter-derived or timestamp-prefixed id.
#[test]
fn structured_ids_still_spread() {
    let structured = |n: u64| {
        let mut b = [0u8; 16];
        b[..8].copy_from_slice(&(n as u32 as u64).to_be_bytes());
        b[8..].copy_from_slice(&(0x5555_5555_5500_0000 | n).to_be_bytes());
        b
    };
    let f = build(&column((0..10_000u64).map(structured).collect())).unwrap();

    for i in 0..10_000u64 {
        assert!(may_contain(&f, &structured(i)), "false negative at {i}");
    }
    let probes = 100_000u64;
    let fp = (10_000..10_000 + probes)
        .filter(|&i| may_contain(&f, &structured(i)))
        .count();
    let rate = fp as f64 / probes as f64;
    assert!(rate < 0.02, "false positive rate {rate}");
}

#[test]
fn adjacent_duplicates_do_not_inflate_the_filter() {
    let ids: Vec<[u8; 16]> = (0..1_000u64).flat_map(|n| [id(n); 8]).collect();
    let fanned = build(&column(ids)).unwrap();
    assert_eq!(fanned.len(), filter(1_000).len());
    for i in 0..1_000u64 {
        assert!(may_contain(&fanned, &id(i)), "false negative at {i}");
    }
}

#[test]
fn nothing_to_index_writes_nothing() {
    assert!(build(&column(Vec::new())).is_none());
    let nulls = Column {
        valid: Some(vec![false; 100]),
        data: Data::Fixed(vec![vec![0; 16]; 100]),
    };
    assert!(build(&nulls).is_none());
}

/// The checksum in the header is the one of the bitmap behind it.
#[test]
fn the_header_says_how_to_read_the_filter() {
    let f = filter(3);
    assert_eq!(&f[..4], b"MBLM");
    assert_eq!(f[4], VERSION);
    let words = u32::from_le_bytes([f[8], f[9], f[10], f[11]]) as usize;
    assert!(words.is_power_of_two());
    assert_eq!(f.len(), HEADER + words * 8);
    let crc = u32::from_le_bytes([f[12], f[13], f[14], f[15]]);
    assert_eq!(crc, crc32fast::hash(&f[HEADER..]));
}
