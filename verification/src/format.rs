//! The bytes of a table's file, checked before any of them is believed.
//!
//! A file is an Arrow IPC file with its own checksum in the footer's metadata.
//! Every length and offset is read out of the file, so every one of them is
//! checked against the region the checksum covers; and the messages are found
//! by walking that region, not by reading the footer's table of contents, which
//! the checksum cannot cover.

use crate::checksum::{crc32, crc32_of, law_one_changed_byte_shows};
use crate::error::{Error, IoKind};
use crate::guard::{
    check_format, corrupt, declared_version, is_io, not_a_version, too_new, FORMAT_KEY,
    FORMAT_VERSION,
};
use crate::order::same_text;
use crate::text::{
    chars_of, decimal, lemma_decimal_round_trip, padded, parse_unsigned, push_decimal, push_padded,
    push_signed, push_str, read_unsigned, signed,
};
use vstd::bytes::{spec_u32_from_le_bytes, u32_from_le_bytes};
use vstd::prelude::*;

verus! {

/// Where the schema message starts: the magic, padded to the alignment.
pub const HEADER_LEN: usize = 64;

/// The metadata keys of the checksum and of the length it covers.
pub const CRC_KEY: &'static str = "mira.crc32";

pub const CRC_LEN_KEY: &'static str = "mira.crc32.len";

/// What the file starts and ends with.
pub open spec fn magic() -> Seq<u8> {
    seq![65u8, 82, 82, 79, 87, 49]
}

fn is_magic(b: &[u8], at: usize) -> (r: bool)
    requires
        at + 6 <= b@.len(),
    ensures
        r == (b@.subrange(at as int, at + 6) == magic()),
{
    let r = b[at] == 65 && b[at + 1] == 82 && b[at + 2] == 82 && b[at + 3] == 79 && b[at + 4] == 87
        && b[at + 5] == 49;
    let ghost s = b@.subrange(at as int, at + 6);
    assert(s[0] == b@[at as int] && s[1] == b@[at + 1] && s[2] == b@[at + 2] && s[3] == b@[at + 3]
        && s[4] == b@[at + 4] && s[5] == b@[at + 5]);
    if r {
        assert(s =~= magic());
    }
    r
}

// ---------------------------------------------------------------------------
// What the outside reader says.

/// A 32-bit pattern as the signed number it stands for.
pub open spec fn as_i32(n: u32) -> int {
    if n >= 0x8000_0000 {
        n as int - 0x1_0000_0000
    } else {
        n as int
    }
}

/// The footer length that the last ten bytes of a file declare: four bytes of
/// length, not negative, and the magic.
pub open spec fn declared_footer(tail: Seq<u8>) -> Option<nat> {
    let n = spec_u32_from_le_bytes(tail.subrange(0, 4));
    if tail.subrange(4, 10) == magic() && as_i32(n) >= 0 {
        Some(n as nat)
    } else {
        None
    }
}

/// `arrow_ipc::reader::read_footer_length` reads the footer's length out of
/// the last ten bytes of a file. It refuses them where they do not end in the
/// magic, and where the length is negative.
#[verifier::external_body]
fn footer_length(tail: &[u8]) -> (r: Option<usize>)
    requires
        tail@.len() == 10,
    ensures
        r is Some <==> declared_footer(tail@) is Some,
        r matches Some(n) ==> declared_footer(tail@) == Some(n as nat),
{
    match tail.try_into() {
        Ok(last) => arrow_ipc::reader::read_footer_length(last).ok(),
        Err(_) => None,
    }
}

/// One entry of a footer's metadata.
pub struct Meta {
    pub key: Option<String>,
    pub value: Option<String>,
}

/// What a metadata entry is, independent of how it is held.
pub struct MetaView {
    pub key: Option<Seq<char>>,
    pub value: Option<Seq<char>>,
}

impl Meta {
    pub open spec fn meta(&self) -> MetaView {
        MetaView {
            key: match &self.key {
                Some(s) => Some(s@),
                None => None,
            },
            value: match &self.value {
                Some(s) => Some(s@),
                None => None,
            },
        }
    }
}

/// What each of several entries is.
pub open spec fn metas(v: Seq<Meta>) -> Seq<MetaView> {
    Seq::new(v.len(), |i: int| v[i].meta())
}

/// The metadata of the footer some bytes hold, or why they hold none.
pub uninterp spec fn footer_of(bytes: Seq<u8>) -> Result<Seq<MetaView>, Seq<char>>;

/// `arrow_ipc::root_as_footer` verifies that some bytes hold a footer; the
/// keys and values of its custom metadata are then read off it in order. What
/// comes out is named [`footer_of`] and depends on the bytes alone, given that
/// 64-bit integers are aligned to 8 bytes.
#[verifier::external_body]
fn read_footer(bytes: &[u8]) -> (r: Result<Vec<Meta>, String>)
    ensures
        match r {
            Ok(v) => footer_of(bytes@) == Ok::<Seq<MetaView>, Seq<char>>(metas(v@)),
            Err(e) => footer_of(bytes@) == Err::<Seq<MetaView>, Seq<char>>(e@),
        },
{
    match arrow_ipc::root_as_footer(bytes) {
        Ok(footer) => Ok(footer.custom_metadata().into_iter().flatten().map(|kv| Meta {
            key: kv.key().map(str::to_owned),
            value: kv.value().map(str::to_owned),
        }).collect()),
        Err(e) => Err(e.to_string()),
    }
}

/// What a message header says: the kind of message, the length of its body,
/// and the version of the format it was written in.
#[derive(Debug, Clone, Copy, PartialEq, Eq, Structural)]
pub struct Header {
    pub kind: u8,
    pub body: i64,
    pub version: i16,
}

/// The message header some bytes hold, or why they hold none.
pub uninterp spec fn header_of(bytes: Seq<u8>) -> Result<Header, Seq<char>>;

/// `arrow_ipc::root_as_message` verifies that some bytes hold a message, whose
/// kind, body length and version are then read off it. What comes out is named
/// [`header_of`] and depends on the bytes alone, given that 64-bit integers are
/// aligned to 8 bytes.
#[verifier::external_body]
fn read_header(bytes: &[u8]) -> (r: Result<Header, String>)
    ensures
        match r {
            Ok(h) => header_of(bytes@) == Ok::<Header, Seq<char>>(h),
            Err(e) => header_of(bytes@) == Err::<Header, Seq<char>>(e@),
        },
{
    match arrow_ipc::root_as_message(bytes) {
        Ok(m) => Ok(Header {
            kind: m.header_type().0,
            body: m.bodyLength(),
            version: m.version().0,
        }),
        Err(e) => Err(e.to_string()),
    }
}

/// The kinds of message a table's file is made of.
pub const SCHEMA: u8 = 1;

pub const DICTIONARY: u8 = 2;

pub const RECORDS: u8 = 3;

/// What a kind of message is called.
pub open spec fn kind_text(kind: u8) -> Seq<char> {
    if kind == 0 {
        "NONE"@
    } else if kind == SCHEMA {
        "Schema"@
    } else if kind == DICTIONARY {
        "DictionaryBatch"@
    } else if kind == RECORDS {
        "RecordBatch"@
    } else if kind == 4 {
        "Tensor"@
    } else if kind == 5 {
        "SparseTensor"@
    } else {
        "an unknown message"@
    }
}

fn kind_name(kind: u8) -> (r: &'static str)
    ensures
        r@ == kind_text(kind),
{
    if kind == 0 {
        "NONE"
    } else if kind == SCHEMA {
        "Schema"
    } else if kind == DICTIONARY {
        "DictionaryBatch"
    } else if kind == RECORDS {
        "RecordBatch"
    } else if kind == 4 {
        "Tensor"
    } else if kind == 5 {
        "SparseTensor"
    } else {
        "an unknown message"
    }
}

// ---------------------------------------------------------------------------
// Messages.

/// One encapsulated message: where it starts, how long its metadata is with
/// the prefix, how long its body is, and what its header says.
#[derive(Debug, Clone, Copy, PartialEq, Eq, Structural)]
pub struct Framed {
    pub offset: usize,
    pub meta: usize,
    pub body: usize,
    pub kind: u8,
    pub version: i16,
}

impl Framed {
    /// Where the next message starts.
    pub open spec fn end(self) -> int {
        self.offset + self.meta + self.body
    }
}

/// The frame of the message at `offset` of a checked body, or why there is
/// none.
pub open spec fn framed(body: Seq<u8>, offset: int) -> Result<Framed, Seq<char>> {
    if offset > body.len() || body.len() - offset < 8 {
        Err(
            "outside the "@ + decimal(body.len()) + " bytes the checksum covers"@,
        )
    } else if body.subrange(offset, offset + 4) != seq![255u8, 255, 255, 255] {
        Err("no message framing here"@)
    } else {
        let declared = as_i32(spec_u32_from_le_bytes(body.subrange(offset + 4, offset + 8)));
        let meta = declared + 8;
        if declared < 0 || meta > i32::MAX {
            Err(signed(declared) + " is not a metadata length"@)
        } else if body.len() - offset < meta {
            Err(
                decimal(meta as nat) + " bytes of metadata run past the "@ + decimal(body.len())
                    + " bytes the checksum covers"@,
            )
        } else {
            match header_of(body.subrange(offset + 8, offset + meta)) {
                Err(e) => Err("not a readable IPC message: "@ + e),
                Ok(h) => if h.body < 0 || h.body > body.len() - offset - meta {
                    Err(
                        "a "@ + signed(h.body as int) + "-byte body runs past the "@ + decimal(
                            body.len(),
                        ) + " bytes the checksum covers"@,
                    )
                } else {
                    Ok(
                        Framed {
                            offset: offset as usize,
                            meta: meta as usize,
                            body: h.body as usize,
                            kind: h.kind,
                            version: h.version,
                        },
                    )
                },
            }
        }
    }
}

/// What is said of a message that cannot be framed.
pub open spec fn message_text(offset: int, why: Seq<char>) -> Seq<char> {
    "message at offset "@ + decimal(offset as nat) + ": "@ + why
}

fn bad(path: &str, offset: usize, why: String) -> (e: Error)
    ensures
        is_io(e, path@, IoKind::InvalidData, message_text(offset as int, why@)),
{
    let mut what: String = "message at offset ".to_owned();
    push_decimal(&mut what, offset as u64);
    push_str(&mut what, ": ");
    push_str(&mut what, why.as_str());
    corrupt(path, what)
}

fn covers(start: &str, end: &str, body_len: usize) -> (s: String)
    ensures
        s@ == start@ + decimal(body_len as nat) + end@,
{
    let mut s: String = start.to_owned();
    push_decimal(&mut s, body_len as u64);
    push_str(&mut s, end);
    s
}

fn numbered(n: i64, rest: &str) -> (s: String)
    ensures
        s@ == signed(n as int) + rest@,
{
    let mut s: String = String::new();
    push_signed(&mut s, n);
    push_str(&mut s, rest);
    assert(s@ =~= signed(n as int) + rest@);
    s
}

/// Frame the message at `offset`, checking every number it declares against
/// the region the checksum covers, which is the first `body_len` bytes.
pub fn message_at(path: &str, file: &[u8], offset: usize, body_len: usize) -> (r: Result<Framed, Error>)
    requires
        body_len <= file@.len(),
    ensures
        match framed(file@.take(body_len as int), offset as int) {
            Ok(f) => r == Ok::<Framed, Error>(f),
            Err(why) => r matches Err(e) && is_io(
                e,
                path@,
                IoKind::InvalidData,
                message_text(offset as int, why),
            ),
        },
        r matches Ok(f) ==> f.offset == offset && f.meta >= 8 && offset + f.meta + f.body <= body_len,
{
    let ghost body = file@.take(body_len as int);
    if offset > body_len || body_len - offset < 8 {
        return Err(
            bad(path, offset, covers("outside the ", " bytes the checksum covers", body_len)),
        );
    }
    let marked = file[offset] == 255 && file[offset + 1] == 255 && file[offset + 2] == 255
        && file[offset + 3] == 255;
    proof {
        let m = body.subrange(offset as int, offset + 4);
        assert(m[0] == file@[offset as int] && m[1] == file@[offset + 1] && m[2] == file@[offset + 2]
            && m[3] == file@[offset + 3]);
        if marked {
            assert(m =~= seq![255u8, 255, 255, 255]);
        }
    }
    if !marked {
        return Err(bad(path, offset, "no message framing here".to_owned()));
    }
    let field = vstd::slice::slice_subrange(file, offset + 4, offset + 8);
    assert(field@ =~= body.subrange(offset + 4, offset + 8));
    let pattern: u32 = u32_from_le_bytes(field);
    if pattern >= 0x7fff_fff8 {
        let declared: i64 = if pattern >= 0x8000_0000 {
            pattern as i64 - 0x1_0000_0000
        } else {
            pattern as i64
        };
        return Err(bad(path, offset, numbered(declared, " is not a metadata length")));
    }
    let meta: usize = pattern as usize + 8;
    if body_len - offset < meta {
        let start = numbered(meta as i64, " bytes of metadata run past the ");
        let why = covers(start.as_str(), " bytes the checksum covers", body_len);
        assert(why@ =~= decimal(meta as nat) + " bytes of metadata run past the "@ + decimal(
            body.len(),
        ) + " bytes the checksum covers"@);
        return Err(bad(path, offset, why));
    }
    let inner = vstd::slice::slice_subrange(file, offset + 8, offset + meta);
    assert(inner@ =~= body.subrange(offset + 8, offset + meta));
    let h = match read_header(inner) {
        Ok(h) => h,
        Err(e) => {
            let mut why: String = "not a readable IPC message: ".to_owned();
            push_str(&mut why, e.as_str());
            return Err(bad(path, offset, why));
        },
    };
    let room: usize = body_len - offset - meta;
    if h.body < 0 || h.body as u64 > room as u64 {
        let tail = numbered(h.body, "-byte body runs past the ");
        let mut start: String = "a ".to_owned();
        push_str(&mut start, tail.as_str());
        let why = covers(start.as_str(), " bytes the checksum covers", body_len);
        assert(why@ =~= "a "@ + signed(h.body as int) + "-byte body runs past the "@ + decimal(
            body.len(),
        ) + " bytes the checksum covers"@);
        return Err(bad(path, offset, why));
    }
    Ok(Framed { offset, meta, body: h.body as usize, kind: h.kind, version: h.version })
}

// ---------------------------------------------------------------------------
// The footer.

/// The value of the first metadata entry with a key.
pub open spec fn meta_value(m: Seq<MetaView>, key: Seq<char>) -> Option<Seq<char>>
    decreases m.len(),
{
    if m.len() == 0 {
        None
    } else if m[0].key == Some(key) {
        m[0].value
    } else {
        meta_value(m.skip(1), key)
    }
}

fn find_meta<'a>(m: &'a Vec<Meta>, key: &str) -> (r: Option<&'a str>)
    ensures
        r is Some <==> meta_value(metas(m@), key@) is Some,
        r matches Some(v) ==> meta_value(metas(m@), key@) == Some(v@),
{
    let mut i: usize = 0;
    let ghost all = metas(m@);
    assert(all.skip(0) =~= all);
    while i < m.len()
        invariant
            i <= m@.len(),
            all == metas(m@),
            meta_value(all, key@) == meta_value(all.skip(i as int), key@),
        decreases m@.len() - i,
    {
        assert(all.skip(i as int)[0] == m@[i as int].meta());
        assert(all.skip(i as int).skip(1) =~= all.skip(i + 1));
        if let Some(k) = &m[i].key {
            if same_text(k.as_str(), key) {
                return match &m[i].value {
                    Some(v) => Some(v.as_str()),
                    None => None,
                };
            }
        }
        i = i + 1;
    }
    None
}

/// Why a file is refused.
pub enum Refusal {
    BadMagic,
    /// What the outside reader says of the footer.
    Footer(Seq<char>),
    Corrupt(Seq<char>),
    Unsupported(Seq<char>),
    /// The metadata entry that is not there or not what it should be.
    Missing(Seq<char>),
    Checksum(u32, u32),
}

/// The error a refusal comes out as.
pub open spec fn refused(e: Error, path: Seq<char>, why: Refusal) -> bool {
    match why {
        Refusal::BadMagic => e matches Error::BadMagic { path: p } && p@ == path,
        Refusal::Footer(text) => e matches Error::Arrow(s) && s@ == "Parser error: "@ + text,
        Refusal::Corrupt(text) => is_io(e, path, IoKind::InvalidData, text),
        Refusal::Unsupported(text) => is_io(e, path, IoKind::Unsupported, text),
        Refusal::Missing(key) => e matches Error::MissingMetadata { path: p, key: k } && p@ == path
            && k@ == key,
        Refusal::Checksum(expected, actual) => e matches Error::BadChecksum {
            path: p,
            expected: x,
            actual: a,
        } && p@ == path && x == expected && a == actual,
    }
}

/// Where the footer starts, or why the file is refused before it is read.
pub open spec fn footer_start(file: Seq<u8>) -> Result<nat, Refusal> {
    let n = file.len();
    if n < 16 || file.subrange(0, 6) != magic() {
        Err(Refusal::BadMagic)
    } else {
        let tail = file.subrange(n - 10, n as int);
        match declared_footer(tail) {
            None => Err(
                Refusal::Footer(
                    if tail.subrange(4, 10) != magic() {
                        "Arrow file does not contain correct footer"@
                    } else {
                        "Invalid footer length: "@ + signed(
                            as_i32(spec_u32_from_le_bytes(tail.subrange(0, 4))),
                        )
                    },
                ),
            ),
            Some(len) => if len > n - 10 {
                Err(
                    Refusal::Corrupt(
                        "footer says it is "@ + decimal(len) + " bytes, in a "@ + decimal(n)
                            + "-byte file"@,
                    ),
                )
            } else {
                Ok((n - 10 - len) as nat)
            },
        }
    }
}

/// How many bytes from the start the checksum covers, or why the file is
/// refused. The version is looked at first: it is what says that the rest of
/// the file means what this engine thinks it means.
pub open spec fn checked_len(file: Seq<u8>) -> Result<nat, Refusal> {
    match footer_start(file) {
        Err(why) => Err(why),
        Ok(start) => match footer_of(file.subrange(start as int, file.len() - 10)) {
            Err(e) => Err(Refusal::Footer(e)),
            Ok(m) => checked_metadata(file, start, m),
        },
    }
}

/// The same, given the footer's metadata.
pub open spec fn checked_metadata(file: Seq<u8>, start: nat, m: Seq<MetaView>) -> Result<nat, Refusal> {
    let declared = meta_value(m, "mira.format"@);
    match declared_version(declared) {
        None => Err(Refusal::Corrupt(not_a_version(declared.unwrap()))),
        Some(v) => if v > FORMAT_VERSION {
            Err(Refusal::Unsupported(too_new(v)))
        } else {
            match meta_value(m, "mira.crc32"@) {
                None => Err(Refusal::Missing("mira.crc32"@)),
                Some(crc) => match parse_unsigned(crc, 16, u32::MAX as nat) {
                    None => Err(Refusal::Missing("mira.crc32"@)),
                    Some(expected) => match meta_value(m, "mira.crc32.len"@) {
                        None => Err(Refusal::Missing("mira.crc32.len"@)),
                        Some(len) => match parse_unsigned(len, 10, usize::MAX as nat) {
                            None => Err(Refusal::Missing("mira.crc32.len"@)),
                            Some(body) => if body > start {
                                Err(Refusal::Missing("mira.crc32.len"@))
                            } else if crc32(file.take(body as int)) != expected {
                                Err(
                                    Refusal::Checksum(
                                        expected as u32,
                                        crc32(file.take(body as int)),
                                    ),
                                )
                            } else {
                                Ok(body)
                            },
                        },
                    },
                },
            }
        },
    }
}

fn find_footer(path: &str, file: &[u8]) -> (r: Result<usize, Error>)
    ensures
        match footer_start(file@) {
            Ok(n) => r matches Ok(k) && k == n && k + 10 <= file@.len(),
            Err(why) => r matches Err(e) && refused(e, path@, why),
        },
{
    let n: usize = file.len();
    if n < 16 || !is_magic(file, 0) {
        return Err(Error::BadMagic { path: path.to_owned() });
    }
    let trailer: usize = n - 10;
    let tail = vstd::slice::slice_subrange(file, trailer, n);
    let len: usize = match footer_length(tail) {
        Some(len) => len,
        None => {
            let mut what: String = "Parser error: ".to_owned();
            if !is_magic(tail, 4) {
                push_str(&mut what, "Arrow file does not contain correct footer");
            } else {
                let field = vstd::slice::slice_subrange(tail, 0, 4);
                let pattern: u32 = u32_from_le_bytes(field);
                let declared: i64 = if pattern >= 0x8000_0000 {
                    pattern as i64 - 0x1_0000_0000
                } else {
                    pattern as i64
                };
                push_str(&mut what, "Invalid footer length: ");
                push_signed(&mut what, declared);
                assert(what@ =~= "Parser error: "@ + ("Invalid footer length: "@ + signed(
                    declared as int,
                )));
            }
            return Err(Error::Arrow(what));
        },
    };
    if len > trailer {
        let mut what: String = "footer says it is ".to_owned();
        push_decimal(&mut what, len as u64);
        push_str(&mut what, " bytes, in a ");
        push_decimal(&mut what, n as u64);
        push_str(&mut what, "-byte file");
        return Err(corrupt(path, what));
    }
    Ok(trailer - len)
}

fn missing(path: &str, key: &'static str) -> (e: Error)
    ensures
        refused(e, path@, Refusal::Missing(key@)),
{
    Error::MissingMetadata { path: path.to_owned(), key }
}

fn check_metadata(path: &str, file: &[u8], start: usize, m: &Vec<Meta>) -> (r: Result<usize, Error>)
    requires
        start <= file@.len(),
    ensures
        match checked_metadata(file@, start as nat, metas(m@)) {
            Ok(n) => r matches Ok(k) && k == n && k <= start,
            Err(why) => r matches Err(e) && refused(e, path@, why),
        },
{
    let declared = find_meta(m, "mira.format");
    if let Err(e) = check_format(path, declared) {
        return Err(e);
    }
    let crc = match find_meta(m, "mira.crc32") {
        Some(v) => v,
        None => {
            return Err(missing(path, "mira.crc32"));
        },
    };
    let c = chars_of(crc);
    assert(c@.subrange(0, c@.len() as int) =~= crc@);
    let expected: u64 = match read_unsigned(c.as_slice(), 0, c.len(), 16, 0xffff_ffff) {
        Some(n) => n,
        None => {
            return Err(missing(path, "mira.crc32"));
        },
    };
    let len = match find_meta(m, "mira.crc32.len") {
        Some(v) => v,
        None => {
            return Err(missing(path, "mira.crc32.len"));
        },
    };
    let l = chars_of(len);
    assert(l@.subrange(0, l@.len() as int) =~= len@);
    let body: u64 = match read_unsigned(l.as_slice(), 0, l.len(), 10, usize::MAX as u64) {
        Some(n) => n,
        None => {
            return Err(missing(path, "mira.crc32.len"));
        },
    };
    if body > start as u64 {
        return Err(missing(path, "mira.crc32.len"));
    }
    let n: usize = body as usize;
    let covered = vstd::slice::slice_subrange(file, 0, n);
    assert(covered@ =~= file@.take(n as int));
    let actual: u32 = crc32_of(covered);
    if actual as u64 != expected {
        return Err(
            Error::BadChecksum { path: path.to_owned(), expected: expected as u32, actual },
        );
    }
    Ok(n)
}

/// How many bytes from the start the checksum covers, once it has been found
/// to hold.
pub fn check_body(path: &str, file: &[u8]) -> (r: Result<usize, Error>)
    ensures
        match checked_len(file@) {
            Ok(n) => r matches Ok(k) && k == n && k <= file@.len(),
            Err(why) => r matches Err(e) && refused(e, path@, why),
        },
{
    let start: usize = match find_footer(path, file) {
        Ok(n) => n,
        Err(e) => {
            return Err(e);
        },
    };
    let inner = vstd::slice::slice_subrange(file, start, file.len() - 10);
    match read_footer(inner) {
        Ok(m) => check_metadata(path, file, start, &m),
        Err(e) => {
            let mut what: String = "Parser error: ".to_owned();
            push_str(&mut what, e.as_str());
            Err(Error::Arrow(what))
        },
    }
}

// ---------------------------------------------------------------------------
// The chain of messages.

/// The schema message that a body starts with, or why there is none.
pub open spec fn schema_frame(body: Seq<u8>) -> Result<Framed, Seq<char>> {
    match framed(body, HEADER_LEN as int) {
        Err(why) => Err(message_text(HEADER_LEN as int, why)),
        Ok(f) => if f.kind == SCHEMA {
            Ok(f)
        } else {
            Err(
                "the body starts with \""@ + kind_text(f.kind) + "\", not a schema message"@,
            )
        },
    }
}

/// The dictionary or batch at `offset`, or why there is none.
pub open spec fn batch_frame(body: Seq<u8>, offset: int) -> Result<Framed, Seq<char>> {
    match framed(body, offset) {
        Err(why) => Err(message_text(offset, why)),
        Ok(f) => if f.kind == DICTIONARY || f.kind == RECORDS {
            Ok(f)
        } else {
            Err(
                kind_text(f.kind) + " at offset "@ + decimal(f.end() as nat)
                    + " is not a dictionary or a record batch"@,
            )
        },
    }
}

/// The messages from `offset` to the end of the body, each starting where the
/// one before it ends, or why one of them cannot be had.
pub open spec fn chain(body: Seq<u8>, offset: int) -> Result<Seq<Framed>, Seq<char>>
    decreases body.len() - offset,
{
    if offset >= body.len() {
        Ok(Seq::empty())
    } else {
        match batch_frame(body, offset) {
            Err(why) => Err(why),
            Ok(f) => if !(offset < f.end() <= body.len()) {
                Err(Seq::empty())
            } else {
                match chain(body, f.end()) {
                    Err(why) => Err(why),
                    Ok(rest) => Ok(seq![f] + rest),
                }
            },
        }
    }
}

/// The schema message that the body starts with.
pub fn first_message(path: &str, file: &[u8], body_len: usize) -> (r: Result<Framed, Error>)
    requires
        body_len <= file@.len(),
    ensures
        match schema_frame(file@.take(body_len as int)) {
            Ok(f) => r == Ok::<Framed, Error>(f) && f.offset == HEADER_LEN && f.meta >= 8 && f.end()
                <= body_len,
            Err(why) => r matches Err(e) && is_io(e, path@, IoKind::InvalidData, why),
        },
{
    let f = match message_at(path, file, HEADER_LEN, body_len) {
        Ok(f) => f,
        Err(e) => {
            return Err(e);
        },
    };
    if f.kind != SCHEMA {
        let mut what: String = "the body starts with \"".to_owned();
        push_str(&mut what, kind_name(f.kind));
        push_str(&mut what, "\", not a schema message");
        return Err(corrupt(path, what));
    }
    Ok(f)
}

/// The dictionary or batch at `offset`.
pub fn next_message(path: &str, file: &[u8], offset: usize, body_len: usize) -> (r: Result<
    Framed,
    Error,
>)
    requires
        body_len <= file@.len(),
    ensures
        match batch_frame(file@.take(body_len as int), offset as int) {
            Ok(f) => r == Ok::<Framed, Error>(f) && f.offset == offset && f.meta >= 8 && f.end()
                <= body_len,
            Err(why) => r matches Err(e) && is_io(e, path@, IoKind::InvalidData, why),
        },
{
    let f = match message_at(path, file, offset, body_len) {
        Ok(f) => f,
        Err(e) => {
            return Err(e);
        },
    };
    if f.kind != DICTIONARY && f.kind != RECORDS {
        let mut what: String = kind_name(f.kind).to_owned();
        push_str(&mut what, " at offset ");
        push_decimal(&mut what, (f.offset + f.meta + f.body) as u64);
        push_str(&mut what, " is not a dictionary or a record batch");
        return Err(corrupt(path, what));
    }
    Ok(f)
}

/// A table's file, checked and framed: the schema message and those after it.
pub struct Opened {
    pub body_len: usize,
    pub schema: Framed,
    pub batches: Vec<Framed>,
}

/// What a file is refused for, or its frames.
pub open spec fn table_frames(file: Seq<u8>) -> Result<(nat, Framed, Seq<Framed>), Refusal> {
    match checked_len(file) {
        Err(why) => Err(why),
        Ok(n) => {
            let body = file.take(n as int);
            match schema_frame(body) {
                Err(why) => Err(Refusal::Corrupt(why)),
                Ok(first) => match chain(body, first.end()) {
                    Err(why) => Err(Refusal::Corrupt(why)),
                    Ok(rest) => Ok((n, first, rest)),
                },
            }
        },
    }
}

/// Check a table's file and find its messages. Nothing outside the region that
/// the checksum covers decides where they are.
pub fn open_table(path: &str, file: &[u8]) -> (r: Result<Opened, Error>)
    ensures
        match table_frames(file@) {
            Ok((n, first, rest)) => r matches Ok(o) && o.body_len == n && o.schema == first
                && o.batches@ == rest,
            Err(why) => r matches Err(e) && refused(e, path@, why),
        },
{
    let body_len: usize = match check_body(path, file) {
        Ok(n) => n,
        Err(e) => {
            return Err(e);
        },
    };
    let ghost body = file@.take(body_len as int);
    let first = match first_message(path, file, body_len) {
        Ok(f) => f,
        Err(e) => {
            return Err(e);
        },
    };
    let mut offset: usize = first.offset + first.meta + first.body;
    let mut batches: Vec<Framed> = Vec::new();
    let ghost whole = chain(body, offset as int);
    while offset < body_len
        invariant
            body_len <= file@.len(),
            body == file@.take(body_len as int),
            whole == match chain(body, offset as int) {
                Ok(rest) => Ok::<Seq<Framed>, Seq<char>>(batches@ + rest),
                Err(why) => Err(why),
            },
            checked_len(file@) == Ok::<nat, Refusal>(body_len as nat),
            schema_frame(body) == Ok::<Framed, Seq<char>>(first),
            whole == chain(body, first.end()),
        decreases body_len - offset,
    {
        let f = match next_message(path, file, offset, body_len) {
            Ok(f) => f,
            Err(e) => {
                return Err(e);
            },
        };
        let ghost was = batches@;
        batches.push(f);
        offset = f.offset + f.meta + f.body;
        proof {
            if let Ok(rest) = chain(body, f.end()) {
                assert(was + (seq![f] + rest) =~= batches@ + rest);
            }
        }
    }
    assert(batches@ + Seq::<Framed>::empty() =~= batches@);
    Ok(Opened { body_len, schema: first, batches })
}

/// Two files whose checksums cover the same bytes have the same messages,
/// whatever else their footers say.
pub proof fn law_frames_come_from_checked_bytes(a: Seq<u8>, b: Seq<u8>)
    requires
        table_frames(a) is Ok,
        table_frames(b) is Ok,
        a.take(table_frames(a)->Ok_0.0 as int) == b.take(table_frames(b)->Ok_0.0 as int),
    ensures
        table_frames(a)->Ok_0 == table_frames(b)->Ok_0,
{
    let x = a.take(table_frames(a)->Ok_0.0 as int);
    let y = b.take(table_frames(b)->Ok_0.0 as int);
    assert(x.len() == y.len());
}

/// The messages of a chain lie end to end: each starts where the one before
/// it ends, none is empty, and the last ends where the checked bytes do.
pub proof fn law_chain_is_contiguous(body: Seq<u8>, offset: int)
    requires
        0 <= offset <= body.len() <= usize::MAX,
        chain(body, offset) is Ok,
    ensures
        ({
            let s = chain(body, offset)->Ok_0;
            &&& s.len() == 0 ==> offset == body.len()
            &&& s.len() > 0 ==> s[0].offset == offset && s.last().end() == body.len()
            &&& forall|i: int| 0 <= i < s.len() - 1 ==> (#[trigger] s[i]).end() == s[i + 1].offset
            &&& forall|i: int|
                0 <= i < s.len() ==> (#[trigger] s[i]).meta >= 8 && s[i].end() <= body.len()
        }),
    decreases body.len() - offset,
{
    if offset < body.len() {
        let f = batch_frame(body, offset)->Ok_0;
        let s = chain(body, offset)->Ok_0;
        let rest = chain(body, f.end())->Ok_0;
        assert(f.offset == offset && f.meta >= 8 && f.end() <= body.len());
        law_chain_is_contiguous(body, f.end());
        assert(s == seq![f] + rest);
        assert forall|i: int| 0 <= i < s.len() - 1 implies (#[trigger] s[i]).end() == s[i
            + 1].offset by {
            if i == 0 {
                assert(s[1] == rest[0]);
            } else {
                assert(s[i] == rest[i - 1] && s[i + 1] == rest[i]);
            }
        }
        if rest.len() > 0 {
            assert(s.last() == rest.last());
        }
        assert forall|i: int| 0 <= i < s.len() implies (#[trigger] s[i]).meta >= 8 && s[i].end()
            <= body.len() by {
            if i > 0 {
                assert(s[i] == rest[i - 1]);
            }
        }
    }
}

// ---------------------------------------------------------------------------
// What a writer adds.

/// The metadata that a file with this body carries: the version, the checksum
/// of everything written before the footer, and how many bytes that is.
pub open spec fn metadata_of(body: Seq<u8>) -> Seq<MetaView> {
    seq![
        MetaView { key: Some("mira.format"@), value: Some(decimal(FORMAT_VERSION as nat)) },
        MetaView { key: Some("mira.crc32"@), value: Some(padded(crc32(body) as nat, 16, 8)) },
        MetaView { key: Some("mira.crc32.len"@), value: Some(decimal(body.len())) },
    ]
}

fn entry(key: &str, value: String) -> (m: Meta)
    ensures
        m.meta() == (MetaView { key: Some(key@), value: Some(value@) }),
{
    Meta { key: Some(key.to_owned()), value: Some(value) }
}

/// The metadata that a file with this body carries.
pub fn body_metadata(body: &[u8]) -> (r: Vec<Meta>)
    ensures
        metas(r@) == metadata_of(body@),
{
    let mut version: String = String::new();
    push_decimal(&mut version, FORMAT_VERSION as u64);
    assert(version@ =~= decimal(FORMAT_VERSION as nat));
    let mut crc: String = String::new();
    push_padded(&mut crc, crc32_of(body) as u64, 16, 8);
    assert(crc@ =~= padded(crc32(body@) as nat, 16, 8));
    let mut len: String = String::new();
    push_decimal(&mut len, body.len() as u64);
    assert(len@ =~= decimal(body@.len()));
    let mut r: Vec<Meta> = Vec::new();
    r.push(entry(FORMAT_KEY, version));
    r.push(entry(CRC_KEY, crc));
    r.push(entry(CRC_LEN_KEY, len));
    assert(metas(r@) =~= metadata_of(body@));
    r
}

/// A file whose footer carries what its writer added passes the check, and the
/// check covers exactly the body.
pub proof fn law_what_is_written_is_accepted(file: Seq<u8>, start: nat, len: nat)
    requires
        len <= start <= file.len() <= usize::MAX,
    ensures
        checked_metadata(file, start, metadata_of(file.take(len as int))) == Ok::<nat, Refusal>(len),
{
    let body = file.take(len as int);
    let m = metadata_of(body);
    reveal_strlit("mira.format");
    reveal_strlit("mira.crc32");
    reveal_strlit("mira.crc32.len");
    assert("mira.format"@.len() == 11 && "mira.crc32"@.len() == 10 && "mira.crc32.len"@.len() == 14);
    assert(m.skip(1)[0] == m[1]);
    assert(m.skip(1).skip(1)[0] == m[2]);
    assert(meta_value(m, "mira.format"@) == m[0].value);
    assert(meta_value(m, "mira.crc32"@) == m[1].value) by {
        assert(meta_value(m.skip(1), "mira.crc32"@) == m[1].value);
    }
    assert(meta_value(m, "mira.crc32.len"@) == m[2].value) by {
        assert(meta_value(m.skip(1).skip(1), "mira.crc32.len"@) == m[2].value);
        assert(meta_value(m.skip(1), "mira.crc32.len"@) == m[2].value);
    }
    lemma_decimal_round_trip(FORMAT_VERSION as nat, u32::MAX as nat);
    crate::block::lemma_padded_parses(crc32(body) as nat, 16, 8, u32::MAX as nat);
    lemma_decimal_round_trip(len, usize::MAX as nat);
}

/// A file that was changed where its checksum looks is refused, unless the
/// checksum itself does not tell the two apart.
pub proof fn law_a_changed_body_is_refused(file: Seq<u8>, start: nat, body: Seq<u8>)
    requires
        body.len() <= start <= file.len() <= usize::MAX,
        crc32(file.take(body.len() as int)) != crc32(body),
    ensures
        checked_metadata(file, start, metadata_of(body)) == Err::<nat, Refusal>(
            Refusal::Checksum(crc32(body), crc32(file.take(body.len() as int))),
        ),
{
    let len = body.len();
    let m = metadata_of(body);
    reveal_strlit("mira.format");
    reveal_strlit("mira.crc32");
    reveal_strlit("mira.crc32.len");
    assert("mira.format"@.len() == 11 && "mira.crc32"@.len() == 10 && "mira.crc32.len"@.len() == 14);
    assert(m.skip(1)[0] == m[1]);
    assert(m.skip(1).skip(1)[0] == m[2]);
    assert(meta_value(m.skip(1), "mira.crc32"@) == m[1].value);
    assert(meta_value(m.skip(1).skip(1), "mira.crc32.len"@) == m[2].value);
    assert(meta_value(m.skip(1), "mira.crc32.len"@) == m[2].value);
    lemma_decimal_round_trip(FORMAT_VERSION as nat, u32::MAX as nat);
    crate::block::lemma_padded_parses(crc32(body) as nat, 16, 8, u32::MAX as nat);
    lemma_decimal_round_trip(len, usize::MAX as nat);
}

/// A file that was accepted is refused once one byte of what its checksum covers
/// has changed: for its magic where the byte is of that, and for its checksum
/// otherwise.
pub proof fn law_one_changed_byte_is_refused(file: Seq<u8>, i: int, x: u8)
    requires
        file.len() <= usize::MAX,
        checked_len(file) is Ok,
        0 <= i < checked_len(file)->Ok_0,
        x != file[i],
    ensures
        ({
            let n = checked_len(file)->Ok_0;
            let changed = file.update(i, x);
            table_frames(changed) == Err::<(nat, Framed, Seq<Framed>), Refusal>(
                if i < 6 {
                    Refusal::BadMagic
                } else {
                    Refusal::Checksum(
                        crc32(file.take(n as int)),
                        crc32(changed.take(n as int)),
                    )
                },
            )
        }),
{
    let n = checked_len(file)->Ok_0;
    let changed = file.update(i, x);
    let len = file.len() as int;
    if i < 6 {
        assert(changed.subrange(0, 6)[i] == x);
        assert(file.subrange(0, 6)[i] == file[i]);
    } else {
        assert(changed.subrange(0, 6) =~= file.subrange(0, 6));
        let start = footer_start(file)->Ok_0;
        assert(n <= start <= len - 10);
        assert(changed.subrange(len - 10, len) =~= file.subrange(len - 10, len));
        assert(changed.subrange(start as int, len - 10) =~= file.subrange(start as int, len - 10));
        law_one_changed_byte_shows(file.take(n as int), changed.take(n as int), i);
    }
}

// ---------------------------------------------------------------------------
// Whether a table was read in place.

/// How many of some addresses lie in a range.
pub open spec fn inside(addresses: Seq<usize>, start: usize, end: usize, n: nat) -> nat
    decreases n,
{
    if n == 0 {
        0
    } else {
        inside(addresses, start, end, (n - 1) as nat) + if start <= addresses[n - 1] < end {
            1nat
        } else {
            0
        }
    }
}

/// How many of a table's buffers point into its mapping, and how many there
/// are. A table that was read in place has both alike; a compressed one has
/// none inside.
pub fn zero_copy_ratio(addresses: &Vec<usize>, start: usize, end: usize) -> (r: (usize, usize))
    ensures
        r.0 == inside(addresses@, start, end, addresses@.len()),
        r.1 == addresses@.len(),
{
    let total = addresses.len();
    let mut n: usize = 0;
    let mut i: usize = 0;
    while i < addresses.len()
        invariant
            i <= addresses@.len(),
            n <= i,
            n == inside(addresses@, start, end, i as nat),
        decreases addresses@.len() - i,
    {
        if start <= addresses[i] && addresses[i] < end {
            n = n + 1;
        }
        i = i + 1;
    }
    (n, total)
}

} // verus!
