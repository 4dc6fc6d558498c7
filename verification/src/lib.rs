//! Verified host-side logic of a GPU JSON structural parser: prefix sums and
//! radix-sort bookkeeping, dispatch planning, bitmap decoding, and the query
//! engine that walks the structural and pairing indexes.

pub mod scan;
pub mod text;
pub mod query;
pub mod parser;
pub mod dispatch;
pub mod bitmap;
pub mod model;
