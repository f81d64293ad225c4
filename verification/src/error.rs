//! What can go wrong.

use crate::text::{decimal, push_decimal, push_padded, push_str};
use vstd::prelude::*;

verus! {

/// The kinds of I/O failure the engine tells apart.
#[derive(Debug, Clone, Copy, PartialEq, Eq, Structural)]
pub enum IoKind {
    NotFound,
    InvalidData,
    InvalidInput,
    Unsupported,
    Other,
}

/// What can go wrong.
#[derive(Debug)]
pub enum Error {
    /// An I/O failure, or a file whose own metadata does not describe it.
    Io { path: String, kind: IoKind, what: String },
    /// A table whose columns do not make one.
    Arrow(String),
    /// A dictionary key space filled up mid-append. The caller's response is to
    /// seal the current block and retry into a fresh one.
    DictionaryFull(&'static str),
    BadMagic { path: String },
    BadChecksum { path: String, expected: u32, actual: u32 },
    MissingMetadata { path: String, key: &'static str },
    /// A block body the decoder refuses.
    Undecodable { path: String, source: String },
    /// The data directory is on a filesystem the read path cannot survive.
    NetworkFilesystem { path: String, fs: String },
    /// The data directory exists but cannot be written to.
    NotWritable { path: String, source: String },
    /// An export bigger than the log will frame: the caller's fault, and not
    /// to be confused with a damaged file.
    WalFrameTooLarge { len: usize, max: u32 },
    /// A log frame that did not survive.
    WalCorrupt { path: String, why: &'static str },
    /// A log segment written by a different build.
    WalVersion { path: String, found: u16, expected: u16 },
    /// An offload target of a scheme that is not implemented.
    OffloadScheme { uri: String },
    /// A name in the store that is taken by other bytes.
    OffloadCollision { dest: String, why: String },
}

/// The text of [`Error::message`].
pub open spec fn error_text(e: Error) -> Seq<char> {
    match e {
        Error::Io { path, kind: _, what } => "io error on "@ + path@ + ": "@ + what@,
        Error::Arrow(what) => what@,
        Error::DictionaryFull(column) => "dictionary key space exhausted for column `"@ + column@
            + "`; seal the block"@,
        Error::BadMagic { path } => path@ + " is not an Arrow IPC file (bad ARROW1 magic)"@,
        Error::BadChecksum { path, expected, actual } => path@ + " failed checksum: footer says 0x"@
            + crate::text::padded(expected as nat, 16, 8) + ", body hashes to 0x"@
            + crate::text::padded(actual as nat, 16, 8),
        Error::MissingMetadata { path, key } => path@ + " has no "@ + key@
            + " in its IPC footer metadata; not a Mira block"@,
        Error::Undecodable { path, source } => path@ + ": this block's body cannot be decoded: "@
            + source@,
        Error::NetworkFilesystem { path, fs } => path@ + " is on "@ + fs@
            + ", a network filesystem. Mira reads blocks through mmap, and on "@ + fs@
            + " a server-side error surfaces as SIGBUS — a signal, not an error, with no recovery path from Rust. Point --data-dir at a local block device (in Kubernetes: a local PV, an EBS/PD volume, or an emptyDir, not an NFS/CSI network mount)."@,
        Error::NotWritable { path, source } => path@ + " is not writable: "@ + source@
            + ". Mira writes nowhere else, so this is fatal at startup rather than degraded at 3am. Check that the mount is read-write and that this process owns the path (in Kubernetes: a volume mounted readOnly, or a missing fsGroup)."@,
        Error::WalFrameTooLarge { len, max } => "export of "@ + decimal(len as nat)
            + " bytes exceeds the "@ + decimal(max as nat) + "-byte WAL frame limit"@,
        Error::WalCorrupt { path, why } => path@ + ": corrupt write-ahead log frame: "@ + why@,
        Error::WalVersion { path, found, expected } => path@ + ": write-ahead log version "@
            + decimal(found as nat) + ", this build writes "@ + decimal(expected as nat),
        Error::OffloadScheme { uri } => uri@
            + " is not an offload target: only file:// is implemented"@,
        Error::OffloadCollision { dest, why } => dest@ + " is not a copy of this block: "@ + why@,
    }
}

impl Error {
    /// What to tell a person.
    pub fn message(&self) -> (s: String)
        ensures
            s@ == error_text(*self),
    {
        let mut s: String = String::new();
        match self {
            Error::Io { path, kind: _, what } => {
                push_str(&mut s, "io error on ");
                push_str(&mut s, path.as_str());
                push_str(&mut s, ": ");
                push_str(&mut s, what.as_str());
            },
            Error::Arrow(what) => push_str(&mut s, what.as_str()),
            Error::DictionaryFull(column) => {
                push_str(&mut s, "dictionary key space exhausted for column `");
                push_str(&mut s, column);
                push_str(&mut s, "`; seal the block");
            },
            Error::BadMagic { path } => {
                push_str(&mut s, path.as_str());
                push_str(&mut s, " is not an Arrow IPC file (bad ARROW1 magic)");
            },
            Error::BadChecksum { path, expected, actual } => {
                push_str(&mut s, path.as_str());
                push_str(&mut s, " failed checksum: footer says 0x");
                push_padded(&mut s, *expected as u64, 16, 8);
                push_str(&mut s, ", body hashes to 0x");
                push_padded(&mut s, *actual as u64, 16, 8);
            },
            Error::MissingMetadata { path, key } => {
                push_str(&mut s, path.as_str());
                push_str(&mut s, " has no ");
                push_str(&mut s, key);
                push_str(&mut s, " in its IPC footer metadata; not a Mira block");
            },
            Error::Undecodable { path, source } => {
                push_str(&mut s, path.as_str());
                push_str(&mut s, ": this block's body cannot be decoded: ");
                push_str(&mut s, source.as_str());
            },
            Error::NetworkFilesystem { path, fs } => {
                push_str(&mut s, path.as_str());
                push_str(&mut s, " is on ");
                push_str(&mut s, fs.as_str());
                push_str(&mut s, ", a network filesystem. Mira reads blocks through mmap, and on ");
                push_str(&mut s, fs.as_str());
                push_str(
                    &mut s,
                    " a server-side error surfaces as SIGBUS — a signal, not an error, with no recovery path from Rust. Point --data-dir at a local block device (in Kubernetes: a local PV, an EBS/PD volume, or an emptyDir, not an NFS/CSI network mount).",
                );
            },
            Error::NotWritable { path, source } => {
                push_str(&mut s, path.as_str());
                push_str(&mut s, " is not writable: ");
                push_str(&mut s, source.as_str());
                push_str(
                    &mut s,
                    ". Mira writes nowhere else, so this is fatal at startup rather than degraded at 3am. Check that the mount is read-write and that this process owns the path (in Kubernetes: a volume mounted readOnly, or a missing fsGroup).",
                );
            },
            Error::WalFrameTooLarge { len, max } => {
                push_str(&mut s, "export of ");
                push_decimal(&mut s, *len as u64);
                push_str(&mut s, " bytes exceeds the ");
                push_decimal(&mut s, *max as u64);
                push_str(&mut s, "-byte WAL frame limit");
            },
            Error::WalCorrupt { path, why } => {
                push_str(&mut s, path.as_str());
                push_str(&mut s, ": corrupt write-ahead log frame: ");
                push_str(&mut s, why);
            },
            Error::WalVersion { path, found, expected } => {
                push_str(&mut s, path.as_str());
                push_str(&mut s, ": write-ahead log version ");
                push_decimal(&mut s, *found as u64);
                push_str(&mut s, ", this build writes ");
                push_decimal(&mut s, *expected as u64);
            },
            Error::OffloadScheme { uri } => {
                push_str(&mut s, uri.as_str());
                push_str(&mut s, " is not an offload target: only file:// is implemented");
            },
            Error::OffloadCollision { dest, why } => {
                push_str(&mut s, dest.as_str());
                push_str(&mut s, " is not a copy of this block: ");
                push_str(&mut s, why.as_str());
            },
        }
        assert(s@ =~= error_text(*self));
        s
    }
}

} // verus!
