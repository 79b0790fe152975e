//! Complexity scoring: the size of the zlib-compressed canonical payload.

use vstd::prelude::*;

use crate::types::config::MAX_COMPLEXITY;

verus! {

/// What `flate2` makes of the bytes at the best compression level, with the
/// default dictionary and strategy: the finished zlib stream, or `None` where the
/// encoder reports an error.
pub uninterp spec fn zlib_best_outcome(data: Seq<u8>) -> Option<Seq<u8>>;

/// Relies on `flate2::write::ZlibEncoder` with `Compression::best()` (level 9,
/// default dictionary and strategy) writing into a `Vec` with the default
/// miniz_oxide backend: the finished zlib stream of the bytes, or `None` where
/// writing or finishing reports an error. Both depend on the bytes alone.
#[verifier::external_body]
fn zlib_compress(payload: &[u8]) -> (r: Option<Vec<u8>>)
    ensures
        match r {
            Some(c) => zlib_best_outcome(payload@) == Some(c@),
            None => zlib_best_outcome(payload@) is None,
        },
{
    let mut encoder = flate2::write::ZlibEncoder::new(Vec::new(), flate2::Compression::best());
    match std::io::Write::write_all(&mut encoder, payload) {
        Ok(()) => encoder.finish().ok(),
        Err(_) => None,
    }
}

/// The score of a compression outcome: the compressed length, or `u64::MAX` when
/// the compressor failed, so that a fault can never pass the complexity check.
pub fn complexity_of_outcome(outcome: &Option<Vec<u8>>) -> (r: u64)
    ensures
        match outcome {
            Some(c) => r as int == c@.len(),
            None => r == u64::MAX,
        },
{
    match outcome {
        Some(c) => c.len() as u64,
        None => u64::MAX,
    }
}

/// The score of a payload: its compressed length, or `u64::MAX` when the compressor
/// fails.
pub open spec fn complexity_score_of(payload: Seq<u8>) -> u64 {
    match zlib_best_outcome(payload) {
        Some(c) => c.len() as u64,
        None => u64::MAX,
    }
}

/// The complexity score of a payload: the length of its zlib stream at the best
/// compression level, or `u64::MAX` if the compressor fails.
pub fn compute_complexity(payload: &[u8]) -> (r: u64)
    ensures
        r == complexity_score_of(payload@),
{
    let outcome = zlib_compress(payload);
    complexity_of_outcome(&outcome)
}

/// Whether a complexity score is within the allowed limit.
pub fn check_complexity(score: u64) -> (r: bool)
    ensures
        r == (score <= MAX_COMPLEXITY),
{
    score <= MAX_COMPLEXITY
}

/// The largest complexity score that still passes.
pub fn max_complexity() -> (r: u64)
    ensures
        r == MAX_COMPLEXITY,
{
    MAX_COMPLEXITY
}

} // verus!
