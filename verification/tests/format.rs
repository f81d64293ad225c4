use std::sync::Arc;

use arrow_array::{RecordBatch, StringArray, UInt32Array};
use arrow_ipc::writer::{FileWriter, IpcWriteOptions};
use arrow_ipc::{root_as_footer, root_as_message, CompressionType, MetadataVersion};
use arrow_schema::{DataType, Field, Schema};
use mira_core::error::{Error, IoKind};
use mira_core::format::{
    body_metadata, check_body, message_at, open_table, zero_copy_ratio, Framed, CRC_KEY,
    CRC_LEN_KEY, HEADER_LEN,
};
use mira_core::guard::{FORMAT_KEY, FORMAT_VERSION};

const PATH: &str = "logs.arrow";

/// A message header tag that no message has.
const UNKNOWN_MESSAGE: u8 = 42;

fn batch() -> RecordBatch {
    let schema = Arc::new(Schema::new(vec![
        Field::new("id", DataType::UInt32, false),
        Field::new("body", DataType::Utf8, true),
    ]));
    RecordBatch::try_new(
        schema,
        vec![
            Arc::new(UInt32Array::from(vec![1, 2, 3])),
            Arc::new(StringArray::from(vec![Some("a"), None, Some("ccc")])),
        ],
    )
    .unwrap()
}

fn write(batch: &RecordBatch, codec: Option<CompressionType>) -> Vec<u8> {
    let opts = IpcWriteOptions::try_new(64, false, MetadataVersion::V5)
        .unwrap()
        .try_with_compression(codec)
        .unwrap();
    let mut w = FileWriter::try_new_with_options(Vec::new(), &batch.schema(), opts).unwrap();
    w.write(batch).unwrap();
    let meta = body_metadata(w.get_ref());
    for m in meta {
        w.write_metadata(m.key.unwrap(), m.value.unwrap());
    }
    w.finish().unwrap();
    w.into_inner().unwrap()
}

fn table() -> Vec<u8> {
    write(&batch(), None)
}

fn footer_start(bytes: &[u8]) -> usize {
    let n = bytes.len();
    let footer_len = i32::from_le_bytes(bytes[n - 10..n - 6].try_into().unwrap()) as usize;
    n - 10 - footer_len
}

fn metadata(bytes: &[u8], key: &str) -> Option<String> {
    let footer = root_as_footer(&bytes[footer_start(bytes)..bytes.len() - 10]).unwrap();
    footer
        .custom_metadata()
        .unwrap()
        .iter()
        .find(|kv| kv.key() == Some(key))
        .and_then(|kv| kv.value().map(|v| v.to_string()))
}

/// Where the checksum's own eight hex digits are, and how many bytes they
/// cover.
fn crc_field(bytes: &[u8]) -> (usize, usize) {
    let start = footer_start(bytes);
    let footer = root_as_footer(&bytes[start..bytes.len() - 10]).unwrap();
    let md = footer.custom_metadata().unwrap();
    let hex = md
        .iter()
        .find(|kv| kv.key() == Some(CRC_KEY))
        .and_then(|kv| kv.value())
        .unwrap();
    assert_eq!(hex.len(), 8, "the CRC is written as eight hex digits");
    (
        hex.as_ptr() as usize - bytes.as_ptr() as usize,
        metadata(bytes, CRC_LEN_KEY).unwrap().parse().unwrap(),
    )
}

/// Make the checksum agree with a body that has been changed underneath it.
fn repair_crc(bytes: &mut [u8]) {
    let (at, body_len) = crc_field(bytes);
    let crc = crc32fast::hash(&bytes[..body_len]);
    bytes[at..at + 8].copy_from_slice(format!("{crc:08x}").as_bytes());
}

/// Where the header tag of the message at `offset` sits, found by probing.
fn header_tag(bytes: &[u8], offset: usize) -> usize {
    let declared = i32::from_le_bytes(bytes[offset + 4..offset + 8].try_into().unwrap()) as usize;
    let meta = offset + 8..offset + 8 + declared;
    for i in meta.clone() {
        let mut probe = bytes.to_vec();
        probe[i] = UNKNOWN_MESSAGE;
        let framed = root_as_message(&probe[meta.clone()]);
        if framed.is_ok_and(|m| m.header_type().0 == UNKNOWN_MESSAGE) {
            return i;
        }
    }
    panic!("the message at {offset} has no header tag to corrupt");
}

fn end(f: &Framed) -> usize {
    f.offset + f.meta + f.body
}

fn invalid_data(e: &Error, what: &str) {
    match e {
        Error::Io { kind, .. } => {
            assert_eq!(*kind, IoKind::InvalidData, "{what}: {}", e.message())
        }
        _ => panic!("{what}: {}", e.message()),
    }
}

fn refused(bytes: &[u8], why: &str) -> Error {
    match open_table(PATH, bytes) {
        Ok(_) => panic!("{why}"),
        Err(e) => e,
    }
}

#[test]
fn what_is_written_opens_and_its_frames_cover_the_body() {
    let bytes = table();
    let t = match open_table(PATH, &bytes) {
        Ok(t) => t,
        Err(e) => panic!("{}", e.message()),
    };
    assert_eq!(t.body_len, crc_field(&bytes).1);
    assert_eq!(t.schema.offset, HEADER_LEN);
    assert_eq!(t.schema.kind, 1);
    assert_eq!(t.batches.len(), 1);
    assert_eq!(t.batches[0].kind, 3);
    assert_eq!(t.batches[0].offset, end(&t.schema));
    assert_eq!(end(&t.batches[0]), t.body_len);
    assert_eq!(check_body(PATH, &bytes).ok(), Some(t.body_len));
}

#[test]
fn a_corrupt_footer_length_is_an_error_not_a_panic() {
    let good = table();
    for len in [i32::MAX, good.len() as i32, good.len() as i32 - 9] {
        let mut bytes = good.clone();
        let n = bytes.len();
        bytes[n - 10..n - 6].copy_from_slice(&len.to_le_bytes());
        let e = refused(&bytes, "a footer length that does not fit read as a block");
        invalid_data(&e, "a footer length");
        assert!(e.message().contains(&len.to_string()), "{}", e.message());
    }
    // A negative one is what the outside reader refuses.
    let mut bytes = good.clone();
    let n = bytes.len();
    bytes[n - 10..n - 6].copy_from_slice(&(-5i32).to_le_bytes());
    match refused(&bytes, "a negative footer length") {
        Error::Arrow(what) => assert_eq!(what, "Parser error: Invalid footer length: -5"),
        e => panic!("{}", e.message()),
    }
}

#[test]
fn no_bit_in_the_unchecked_footer_can_change_what_a_read_returns() {
    let good = table();
    let want = open_table(PATH, &good).ok().unwrap();
    let (start, n) = (footer_start(&good), good.len());
    assert!(start < n - 10, "no footer to corrupt");
    let mut flipped = 0;
    for i in start..n {
        for bit in 0..8u8 {
            let mut bytes = good.clone();
            bytes[i] ^= 1 << bit;
            match open_table(PATH, &bytes) {
                Ok(t) => {
                    assert_eq!(t.body_len, want.body_len, "byte {i} bit {bit}");
                    assert_eq!(t.schema, want.schema, "byte {i} bit {bit}");
                    assert_eq!(t.batches, want.batches, "byte {i} bit {bit}");
                }
                Err(_) => flipped += 1,
            }
        }
    }
    assert!(flipped > 0, "no corrupt footer was rejected");
}

#[test]
fn a_footer_schema_naming_a_wider_type_is_not_the_one_the_read_uses() {
    let good = table();
    let want = open_table(PATH, &good).ok().unwrap();
    let (start, stop) = (footer_start(&good), good.len() - 10);
    let body_tag = |bytes: &[u8]| -> Option<u8> {
        let fields = root_as_footer(&bytes[start..stop]).ok()?.schema()?.fields()?;
        if fields.len() != 2 || fields.get(1).name() != Some("body") {
            return None;
        }
        Some(fields.get(1).type_type().0)
    };
    assert_eq!(body_tag(&good), Some(arrow_ipc::Type::Utf8.0));

    let mut widened = 0;
    for i in start..stop {
        let mut bytes = good.clone();
        bytes[i] = arrow_ipc::Type::LargeUtf8.0;
        if body_tag(&bytes) != Some(arrow_ipc::Type::LargeUtf8.0) {
            continue;
        }
        widened += 1;
        let t = open_table(PATH, &bytes).ok().expect("a widened footer schema is not read");
        assert_eq!(t.schema, want.schema, "byte {i} widened the read");
        assert_eq!(t.batches, want.batches, "byte {i} widened the read");
    }
    assert!(widened > 0, "the footer schema could not be widened");
}

#[test]
fn a_message_that_does_not_fit_the_checked_body_is_refused() {
    let bytes = table();
    // What the checksum covers: everything up to the end-of-stream marker that
    // is written just before the footer.
    let covered = footer_start(&bytes) - 8;

    let schema = message_at(PATH, &bytes, HEADER_LEN, covered).ok().unwrap();
    assert_eq!(schema.kind, 1);
    assert_eq!(schema.meta % 64, 0);
    assert_eq!(schema.body, 0);

    let at = end(&schema);
    let rb = message_at(PATH, &bytes, at, covered).ok().unwrap();
    assert_eq!(rb.kind, 3);
    assert_eq!(end(&rb), covered, "the chain does not end at the CRC");

    let bad = |offset: usize, body_len: usize| match message_at(PATH, &bytes, offset, body_len) {
        Ok(_) => panic!("offset {offset} framed a message inside {body_len} covered bytes"),
        Err(e) => invalid_data(&e, "a message that does not fit"),
    };
    bad(covered, covered);
    bad(usize::MAX, covered);
    bad(HEADER_LEN + 1, covered);
    bad(HEADER_LEN, HEADER_LEN + 8);
    bad(at, at + rb.meta);
}

#[test]
fn a_metadata_length_that_is_not_a_length_is_refused() {
    let good = table();
    let covered = crc_field(&good).1;
    for declared in [-1i32, -8, i32::MIN, i32::MAX, i32::MAX - 7] {
        let mut bytes = good.clone();
        bytes[HEADER_LEN + 4..HEADER_LEN + 8].copy_from_slice(&declared.to_le_bytes());
        let e = match message_at(PATH, &bytes, HEADER_LEN, covered) {
            Ok(_) => panic!("a metadata length of {declared} framed a message"),
            Err(e) => e,
        };
        invalid_data(&e, &format!("metadata length {declared}"));
        assert!(e.message().contains(&declared.to_string()), "{}", e.message());
    }
}

#[test]
fn a_body_that_does_not_start_with_a_schema_is_refused() {
    let mut bytes = table();
    let tag = header_tag(&bytes, HEADER_LEN);
    bytes[tag] = UNKNOWN_MESSAGE;
    repair_crc(&mut bytes);
    let e = refused(&bytes, "a body with no schema at the head of it read as a block");
    invalid_data(&e, "a first message that is not a schema");
    assert!(e.message().contains("not a schema message"), "{}", e.message());
}

#[test]
fn a_message_after_the_schema_that_is_not_a_batch_is_refused() {
    let mut bytes = table();
    let covered = crc_field(&bytes).1;
    let at = end(&message_at(PATH, &bytes, HEADER_LEN, covered).ok().unwrap());
    let tag = header_tag(&bytes, at);
    bytes[tag] = UNKNOWN_MESSAGE;
    repair_crc(&mut bytes);
    let e = refused(&bytes, "a message that is neither a dictionary nor a batch decoded");
    invalid_data(&e, "a message that is not a batch");
    assert!(
        e.message().contains("is not a dictionary or a record batch"),
        "{}",
        e.message()
    );
}

#[test]
fn a_written_table_carries_its_format_version() {
    let bytes = table();
    assert_eq!(metadata(&bytes, FORMAT_KEY), Some(FORMAT_VERSION.to_string()));
    assert!(open_table(PATH, &bytes).is_ok());
}

#[test]
fn corrupt_body_is_caught_not_returned_as_data() {
    let mut bytes = table();
    let covered = crc_field(&bytes).1;
    bytes[covered / 2] ^= 0x01;
    let expected = u32::from_str_radix(&metadata(&bytes, CRC_KEY).unwrap(), 16).unwrap();
    match refused(&bytes, "a changed body read as a block") {
        Error::BadChecksum { path, expected: e, actual } => {
            assert_eq!(path, PATH);
            assert_eq!(e, expected);
            assert_eq!(actual, crc32fast::hash(&bytes[..covered]));
        }
        e => panic!("{}", e.message()),
    }
}

#[test]
fn a_file_of_another_kind_is_refused_by_its_magic() {
    for bytes in [Vec::new(), b"ARROW1".to_vec(), vec![0; 64]] {
        assert!(matches!(
            refused(&bytes, "not an Arrow file"),
            Error::BadMagic { .. }
        ));
    }
    // The magic at the end is the outside reader's to miss.
    let mut bytes = table();
    let n = bytes.len();
    bytes[n - 1] = b'2';
    match refused(&bytes, "a file without its trailing magic") {
        Error::Arrow(what) => assert_eq!(
            what,
            "Parser error: Arrow file does not contain correct footer"
        ),
        e => panic!("{}", e.message()),
    }
}

#[test]
fn a_file_without_a_checksum_is_not_a_block() {
    let b = batch();
    let opts = IpcWriteOptions::try_new(64, false, MetadataVersion::V5).unwrap();
    let plain = |meta: Vec<(&str, String)>| {
        let mut w =
            FileWriter::try_new_with_options(Vec::new(), &b.schema(), opts.clone()).unwrap();
        w.write(&b).unwrap();
        for (k, v) in meta {
            w.write_metadata(k, v);
        }
        w.finish().unwrap();
        w.into_inner().unwrap()
    };
    let missing = |bytes: Vec<u8>| match refused(&bytes, "no checksum") {
        Error::MissingMetadata { key, .. } => key,
        e => panic!("{}", e.message()),
    };
    assert_eq!(missing(plain(vec![("x", "y".to_string())])), CRC_KEY);
    assert_eq!(missing(plain(vec![(CRC_KEY, "zz".to_string())])), CRC_KEY);
    assert_eq!(missing(plain(vec![(CRC_KEY, "0a".to_string())])), CRC_LEN_KEY);
    assert_eq!(
        missing(plain(vec![
            (CRC_KEY, "0a".to_string()),
            (CRC_LEN_KEY, "999999999".to_string())
        ])),
        CRC_LEN_KEY
    );
    // The version is looked at before anything else.
    match refused(&plain(vec![(FORMAT_KEY, "9".to_string())]), "a newer version") {
        Error::Io { kind, .. } => assert_eq!(kind, IoKind::Unsupported),
        e => panic!("{}", e.message()),
    }
}

#[test]
fn a_compressed_table_frames_the_same_way() {
    let schema = Arc::new(Schema::new(vec![Field::new("id", DataType::UInt32, false)]));
    let b = RecordBatch::try_new(schema, vec![Arc::new(UInt32Array::from(vec![7; 4096]))]).unwrap();
    for codec in [CompressionType::ZSTD, CompressionType::LZ4_FRAME] {
        let bytes = write(&b, Some(codec));
        assert!(bytes.len() < write(&b, None).len());
        let t = open_table(PATH, &bytes).ok().unwrap();
        assert_eq!(end(&t.batches[0]), t.body_len);
    }
}

#[test]
fn buffers_inside_the_mapping_are_counted() {
    assert_eq!(zero_copy_ratio(&vec![], 0, 10), (0, 0));
    assert_eq!(zero_copy_ratio(&vec![9, 10, 19, 20], 10, 20), (2, 4));
}

/// The checksum is the CRC-32 that everything else computes.
#[test]
fn a_body_is_summed_by_the_usual_crc() {
    let crc = |b: &[u8]| body_metadata(b).into_iter().find(|m| m.key.as_deref() == Some(CRC_KEY));
    assert_eq!(crc(b"123456789").and_then(|m| m.value).as_deref(), Some("cbf43926"));
    assert_eq!(crc(b"").and_then(|m| m.value).as_deref(), Some("00000000"));
    assert_eq!(crc(b"a").and_then(|m| m.value).as_deref(), Some("e8b7be43"));
}

/// Any one bit that the checksum covers is missed: in the magic as the magic,
/// and elsewhere as the checksum.
#[test]
fn any_one_bit_of_the_body_is_missed() {
    let good = table();
    let covered = crc_field(&good).1;
    for at in 0..covered {
        for bit in 0..8 {
            let mut bytes = good.clone();
            bytes[at] ^= 1 << bit;
            let e = refused(&bytes, "a changed byte read as a block");
            if at < 6 {
                assert!(matches!(e, Error::BadMagic { .. }), "byte {at}");
            } else {
                assert!(matches!(e, Error::BadChecksum { .. }), "byte {at}");
            }
        }
    }
}
