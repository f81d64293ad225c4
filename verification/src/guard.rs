//! What the engine refuses to start on or to read.

use crate::error::{Error, IoKind};
use crate::order::same_text;
use crate::text::{chars_of, decimal, parse_unsigned, push_decimal, push_str, read_unsigned};
use vstd::prelude::*;

verus! {

/// The format this engine writes, and the highest it will read.
pub const FORMAT_VERSION: u32 = 1;

/// The version of blocks written before the version was recorded.
pub const LEGACY_VERSION: u32 = 1;

/// The metadata key that holds the format version.
pub const FORMAT_KEY: &'static str = "mira.format";

/// The version a block declares; `None` where what it declares is not one.
pub open spec fn declared_version(declared: Option<Seq<char>>) -> Option<nat> {
    match declared {
        None => Some(LEGACY_VERSION as nat),
        Some(v) => parse_unsigned(v, 10, u32::MAX as nat),
    }
}

/// What is said of a declared version that is not a number.
pub open spec fn not_a_version(v: Seq<char>) -> Seq<char> {
    "mira.format is `"@ + v + "`, not a version"@
}

/// What is said of a version from the future.
pub open spec fn too_new(version: nat) -> Seq<char> {
    "block format version "@ + decimal(version)
        + " was written by a newer Mira; this binary reads up to version "@ + decimal(
        FORMAT_VERSION as nat,
    )
}

/// The I/O error of a path.
pub open spec fn is_io(e: Error, path: Seq<char>, kind: IoKind, what: Seq<char>) -> bool {
    e matches Error::Io { path: p, kind: k, what: w } && p@ == path && k == kind && w@ == what
}

/// A block file whose own metadata does not describe it.
pub fn corrupt(path: &str, what: String) -> (e: Error)
    ensures
        is_io(e, path@, IoKind::InvalidData, what@),
{
    Error::Io { path: path.to_owned(), kind: IoKind::InvalidData, what }
}

/// Decide whether this engine is allowed to read a block declaring `declared`
/// as its format.
///
/// Refusing the future is the whole job: a newer block read as the current
/// format would not fail, it would answer wrongly.
pub fn check_format(path: &str, declared: Option<&str>) -> (r: Result<(), Error>)
    ensures
        ({
            let d = match declared {
                Some(s) => Some(s@),
                None => None,
            };
            match declared_version(d) {
                Some(v) => if v <= FORMAT_VERSION {
                    r is Ok
                } else {
                    r matches Err(e) && is_io(e, path@, IoKind::Unsupported, too_new(v))
                },
                None => r matches Err(e) && is_io(
                    e,
                    path@,
                    IoKind::InvalidData,
                    not_a_version(d.unwrap()),
                ),
            }
        }),
{
    let version: u64 = match declared {
        None => LEGACY_VERSION as u64,
        Some(v) => {
            let c = chars_of(v);
            assert(c@.subrange(0, c@.len() as int) =~= v@);
            match read_unsigned(c.as_slice(), 0, c.len(), 10, 0xffff_ffff) {
                Some(n) => n,
                None => {
                    let mut what: String = "mira.format is `".to_owned();
                    push_str(&mut what, v);
                    push_str(&mut what, "`, not a version");
                    return Err(corrupt(path, what));
                },
            }
        },
    };
    if version > FORMAT_VERSION as u64 {
        let mut what: String = "block format version ".to_owned();
        push_decimal(&mut what, version);
        push_str(&mut what, " was written by a newer Mira; this binary reads up to version ");
        push_decimal(&mut what, FORMAT_VERSION as u64);
        return Err(Error::Io { path: path.to_owned(), kind: IoKind::Unsupported, what });
    }
    Ok(())
}

/// The filesystem a magic number stands for, if it is one of those that
/// matter. Anything unrecognised is treated as local.
pub open spec fn fs_named(magic: u64) -> Option<Seq<char>> {
    let ty = magic % 0x1_0000_0000;
    if ty == 0x6969 {
        Some("NFS"@)
    } else if ty == 0x517b {
        Some("SMB"@)
    } else if ty == 0xff53_4d42 {
        Some("CIFS"@)
    } else if ty == 0xfe53_4d42 {
        Some("SMB2"@)
    } else if ty == 0x0102_1997 {
        Some("9P"@)
    } else if ty == 0x5346_414f {
        Some("AFS"@)
    } else if ty == 0x00c3_6400 {
        Some("CephFS"@)
    } else if ty == 0x0116_1970 {
        Some("GFS2"@)
    } else if ty == 0x7461_636f {
        Some("OCFS2"@)
    } else if ty == 0x0bd0_0bd0 {
        Some("Lustre"@)
    } else if ty == 0x6573_5546 {
        Some("fuse"@)
    } else {
        None
    }
}

/// The filesystem a mount's magic number stands for, read in its low 32 bits:
/// on some targets it arrives sign-extended.
pub fn fs_type(magic: u64) -> (r: Option<&'static str>)
    ensures
        r is Some <==> fs_named(magic) is Some,
        r matches Some(s) ==> fs_named(magic) == Some(s@),
{
    let ty: u64 = magic % 0x1_0000_0000;
    if ty == 0x6969 {
        Some("NFS")
    } else if ty == 0x517b {
        Some("SMB")
    } else if ty == 0xff53_4d42 {
        Some("CIFS")
    } else if ty == 0xfe53_4d42 {
        Some("SMB2")
    } else if ty == 0x0102_1997 {
        Some("9P")
    } else if ty == 0x5346_414f {
        Some("AFS")
    } else if ty == 0x00c3_6400 {
        Some("CephFS")
    } else if ty == 0x0116_1970 {
        Some("GFS2")
    } else if ty == 0x7461_636f {
        Some("OCFS2")
    } else if ty == 0x0bd0_0bd0 {
        Some("Lustre")
    } else if ty == 0x6573_5546 {
        Some("fuse")
    } else {
        None
    }
}

/// Whether a filesystem is one to refuse. FUSE is not: the number is the same
/// for a network-backed one and a local one.
pub open spec fn refused_fs(fs: Option<Seq<char>>) -> bool {
    fs matches Some(s) && s != "fuse"@
}

/// Refuse a filesystem the read path cannot survive.
pub fn check_fs_type(path: &str, fs: Option<&str>) -> (r: Result<(), Error>)
    ensures
        r is Err <==> refused_fs(
            match fs {
                Some(s) => Some(s@),
                None => None,
            },
        ),
        r matches Err(e) ==> e matches Error::NetworkFilesystem { path: p, fs: f } && p@ == path@
            && (fs matches Some(s) && f@ == s@),
{
    match fs {
        None => Ok(()),
        Some(s) => if same_text(s, "fuse") {
            Ok(())
        } else {
            Err(Error::NetworkFilesystem { path: path.to_owned(), fs: s.to_owned() })
        },
    }
}

/// Refuse to start on a mount, by its magic number, that the read path cannot
/// survive: every block is read through a mapping, and on a network filesystem
/// a server that goes away is delivered as a signal.
pub fn check_filesystem(path: &str, magic: u64) -> (r: Result<(), Error>)
    ensures
        r is Err <==> refused_fs(fs_named(magic)),
        r matches Err(e) ==> e matches Error::NetworkFilesystem { path: p, fs: f } && p@ == path@
            && fs_named(magic) == Some(f@),
{
    check_fs_type(path, fs_type(magic))
}

} // verus!
