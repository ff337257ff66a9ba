//! Per-key aggregate statistics (mean, minimum, maximum) over a delimited
//! byte stream of `key;value` records, where each value is a fixed-precision
//! decimal reading stored as a scaled integer (value times ten).
//!
//! The library is split into:
//! - [`temp`]: the fast-path decimal parser for value tokens,
//! - [`stats`]: one per-key aggregate bucket and its merge algebra,
//! - [`aggregator`]: the sorted key-to-bucket table and the report,
//! - [`tokenizer`]: the suspendable byte-stream state machine.

pub mod aggregator;
pub mod report;
pub mod stats;
pub mod temp;
pub mod tokenizer;

use vstd::prelude::*;
use crate::aggregator::Aggregator;
use crate::report::spec_report;
use crate::stats::Bucket;
use crate::tokenizer::{Tokenizer, spec_run, tok_init};

verus! {

/// The one operation the library exposes to callers that hold the whole
/// input: run the state machine over `data` from the empty state and format
/// the sorted report. Chunked callers drive a [`tokenizer::Tokenizer`] and an
/// [`aggregator::Aggregator`] themselves and end with the same state, chunk
/// the input how they may.
pub fn aggregate(data: &[u8]) -> (out: Vec<u8>)
    requires
        data@.len() <= u64::MAX,
    ensures
        out@ == spec_report(spec_run(tok_init(), Seq::<(Seq<u8>, Bucket)>::empty(), data@).1),
{
    let mut tok = Tokenizer::new();
    let mut agg = Aggregator::new();
    tok.feed(data, &mut agg);
    agg.report()
}

} // verus!
