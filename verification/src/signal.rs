//! Sealed blocks, and blocks that are still open.

use crate::scan::{find_table, table_named, Named};
use crate::table::Table;
use vstd::prelude::*;

verus! {

/// A file that goes beside the tables of a block.
pub struct Sidecar {
    pub name: &'static str,
    pub bytes: Vec<u8>,
}

/// Whether to build the sidecars: a block that is published has them, a
/// snapshot of an open one does not.
#[derive(Debug, Clone, Copy, PartialEq, Eq, Structural)]
pub enum Sidecars {
    Build,
    Skip,
}

/// The tables of one block, ready to be written.
pub struct Sealed {
    pub num_rows: usize,
    pub tables: Vec<Named>,
    pub sidecars: Vec<Sidecar>,
    pub min_ts: i64,
    pub max_ts: i64,
}

/// A snapshot of a block that has been acknowledged and not yet published,
/// under the sequence it will be published under.
pub struct Open {
    pub node: u32,
    pub seq: u64,
    pub sealed: Sealed,
}

/// A time, no earlier than the epoch.
pub open spec fn since_epoch(t: i64) -> i64 {
    if t < 0 {
        0
    } else {
        t
    }
}

impl Sealed {
    /// A sealed block without sidecars. Its range starts no earlier than the
    /// epoch, so that its name can be read back.
    pub fn with(num_rows: usize, tables: Vec<Named>, min_ts: i64, max_ts: i64) -> (r: Sealed)
        ensures
            r.num_rows == num_rows,
            r.tables == tables,
            r.sidecars@.len() == 0,
            r.min_ts == since_epoch(min_ts),
            r.max_ts == since_epoch(max_ts),
    {
        Sealed {
            num_rows,
            tables,
            sidecars: Vec::new(),
            min_ts: if min_ts < 0 {
                0
            } else {
                min_ts
            },
            max_ts: if max_ts < 0 {
                0
            } else {
                max_ts
            },
        }
    }

    /// The table of a name.
    pub fn table(&self, name: &str) -> (r: Option<&Table>)
        ensures
            r is Some <==> table_named(self.tables@, name@) is Some,
            r matches Some(t) ==> table_named(self.tables@, name@) == Some(*t),
    {
        find_table(self.tables.as_slice(), name)
    }

    /// The block with a sidecar beside it, where there is one.
    pub fn with_sidecar(self, name: &'static str, bytes: Option<Vec<u8>>) -> (r: Sealed)
        ensures
            r.num_rows == self.num_rows,
            r.tables == self.tables,
            r.min_ts == self.min_ts,
            r.max_ts == self.max_ts,
            bytes is None ==> r.sidecars@ == self.sidecars@,
            bytes matches Some(b) ==> r.sidecars@ == self.sidecars@.push(Sidecar { name, bytes: b }),
    {
        let mut out = self;
        if let Some(b) = bytes {
            out.sidecars.push(Sidecar { name, bytes: b });
        }
        out
    }
}

} // verus!
