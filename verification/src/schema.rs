//! The vocabulary of the stored tables.

use vstd::prelude::*;

verus! {

/// The attribute value discriminant, in the order of the `type` column's
/// numbers.
#[derive(Debug, Clone, Copy, PartialEq, Eq, Structural)]
pub enum AttrType {
    Empty,
    Str,
    Int,
    Double,
    Bool,
    Bytes,
    Slice,
    KvList,
}

impl AttrType {
    /// The number the `type` column holds for it.
    pub open spec fn number(self) -> u8 {
        match self {
            AttrType::Empty => 0,
            AttrType::Str => 1,
            AttrType::Int => 2,
            AttrType::Double => 3,
            AttrType::Bool => 4,
            AttrType::Bytes => 5,
            AttrType::Slice => 6,
            AttrType::KvList => 7,
        }
    }

    /// The number the `type` column holds for it.
    pub fn code(self) -> (r: u8)
        ensures
            r == self.number(),
    {
        match self {
            AttrType::Empty => 0,
            AttrType::Str => 1,
            AttrType::Int => 2,
            AttrType::Double => 3,
            AttrType::Bool => 4,
            AttrType::Bytes => 5,
            AttrType::Slice => 6,
            AttrType::KvList => 7,
        }
    }
}

/// The tables a logs block is made of, in publish order.
pub const LOGS_BLOCK_TABLES: [&'static str; 5] = [
    "logs",
    "log_attrs",
    "resources",
    "resource_attrs",
    "scope_attrs",
];

/// How many entries a dictionary with 16-bit positions can have.
pub const DICT_CAP: usize = 65_536;

/// The shape of a metric, in the order of the `kind` column's numbers.
#[derive(Debug, Clone, Copy, PartialEq, Eq, Structural)]
pub enum MetricKind {
    Unset,
    Gauge,
    Sum,
    Histogram,
    ExponentialHistogram,
    Summary,
}

impl MetricKind {
    /// The number the `kind` column holds for it.
    pub open spec fn number(self) -> u8 {
        match self {
            MetricKind::Unset => 0,
            MetricKind::Gauge => 1,
            MetricKind::Sum => 2,
            MetricKind::Histogram => 3,
            MetricKind::ExponentialHistogram => 4,
            MetricKind::Summary => 5,
        }
    }

    /// The number the `kind` column holds for it.
    pub fn code(self) -> (r: u8)
        ensures
            r == self.number(),
    {
        match self {
            MetricKind::Unset => 0,
            MetricKind::Gauge => 1,
            MetricKind::Sum => 2,
            MetricKind::Histogram => 3,
            MetricKind::ExponentialHistogram => 4,
            MetricKind::Summary => 5,
        }
    }
}

} // verus!
