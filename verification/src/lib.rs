//! The storage engine of a small OpenTelemetry database, as a verified library.
//!
//! Everything here is a computation on plain values: the names of block
//! directories, the bytes of a block file, the columns of a table, the rows a
//! query selects and the text a response is made of. Reading directories,
//! mapping files and running threads is left to the program around it.

pub mod anchorlaws;
pub mod asklaws;
pub mod attrfilter;
pub mod attrindex;
pub mod attrs;
pub mod block;
pub mod bloom;
pub mod bloomlaws;
pub mod cells;
pub mod checksum;
pub mod columns;
pub mod diag;
pub mod doclaws;
pub mod emit;
pub mod error;
pub mod facets;
pub mod filter;
pub mod float;
pub mod floatlaws;
pub mod format;
pub mod frame;
pub mod framelaws;
pub mod fulllaws;
pub mod guard;
pub mod headroom;
pub mod identity;
pub mod identitylaws;
pub mod index;
pub mod ingestlaws;
pub mod interning;
pub mod internlaws;
pub mod json;
pub mod logs;
pub mod maplaws;
pub mod matchlaws;
pub mod messagelaws;
pub mod metrics;
pub mod namelaws;
pub mod numberlaws;
pub mod offload;
pub mod opening;
pub mod order;
pub mod otlp;
pub mod pagelaws;
pub mod paging;
pub mod path;
pub mod pointlaws;
pub mod points;
pub mod probe;
pub mod proto;
pub mod publish;
pub mod query;
pub mod rangelaws;
pub mod readback;
pub mod recordlaws;
pub mod roomlaws;
pub mod rowlaws;
pub mod scan;
pub mod schema;
pub mod search;
pub mod searchlaws;
pub mod select;
pub mod servicemap;
pub mod signal;
pub mod sizing;
pub mod sort;
pub mod source;
pub mod spanlaws;
pub mod storelaws;
pub mod sweep;
pub mod table;
pub mod tally;
pub mod text;
pub mod textlaws;
pub mod walklaws;
pub mod wire;
pub mod wirelaws;
