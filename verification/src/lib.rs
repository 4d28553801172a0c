//! An ordered parallel CSV sink: per-lane encoding of tabular chunks into
//! CSV bytes, a bounded K-way ordered merge (the linearizer), and a single
//! writer that emits an optional byte-order mark and header exactly once
//! before the data.

pub mod dialect;
pub mod frame;
pub mod encode;
pub mod linearizer;
pub mod encoder;
pub mod writer;
pub mod sink;
