//! One worker's evaluation of a single candidate.
//!
//! A worker owns the arithmetic progression `worker, worker + stride,
//! worker + 2 * stride, ...` of the candidate space. For each candidate it
//! computes the digest of the candidate's 8-byte little-endian encoding,
//! classifies the digest against the required trailing-zero-nibble count,
//! and reports one [`Outcome`]. The enumeration itself is a loop around
//! [`evaluate_candidate`] and [`next_candidate`]; its cancellation flag and
//! the channel that carries the outcomes are the caller's concern.

use crate::checker::{has_trailing_zeros, trailing_zero_nibbles};
use crate::hashing::{hex_of, hex_string, sha256_digest, sha256_of};
use vstd::prelude::*;

verus! {

/// The digest of a candidate: SHA-256 of the candidate's 8-byte
/// little-endian encoding.
pub open spec fn candidate_digest(c: u64) -> Seq<u8> {
    sha256_of(vstd::bytes::spec_u64_to_le_bytes(c))
}

/// Whether a candidate satisfies the search condition: its digest's run of
/// trailing zero nibbles has length exactly `zero_count`.
pub open spec fn candidate_matches(c: u64, zero_count: usize) -> bool {
    trailing_zero_nibbles(candidate_digest(c)) == zero_count
}

/// The report a worker makes for one evaluated candidate. A match carries
/// the digest's hexadecimal rendering; both variants carry the candidate
/// and the reporting worker's index, so that the merger can track progress
/// on every outcome.
pub enum Outcome {
    Match { candidate: u64, worker: usize, digest_hex: String },
    NoMatch { candidate: u64, worker: usize },
}

impl Outcome {
    /// The candidate this outcome reports on.
    pub open spec fn candidate(self) -> u64 {
        match self {
            Outcome::Match { candidate, .. } => candidate,
            Outcome::NoMatch { candidate, .. } => candidate,
        }
    }

    /// The index of the worker that produced this outcome.
    pub open spec fn worker(self) -> usize {
        match self {
            Outcome::Match { worker, .. } => worker,
            Outcome::NoMatch { worker, .. } => worker,
        }
    }

    /// Whether this outcome reports a match.
    pub open spec fn is_match(self) -> bool {
        self is Match
    }

    /// A truthful outcome: the variant agrees with the search condition on
    /// the reported candidate, and a match carries the digest's rendering.
    pub open spec fn ok(self, zero_count: usize) -> bool {
        &&& self.is_match() == candidate_matches(self.candidate(), zero_count)
        &&& match self {
            Outcome::Match { candidate, digest_hex, .. } => digest_hex@ == hex_of(
                candidate_digest(candidate),
            ),
            Outcome::NoMatch { .. } => true,
        }
    }
}

/// Evaluates one candidate: digests its little-endian encoding, classifies
/// the digest, and reports the outcome under the given worker index.
pub fn evaluate_candidate(candidate: u64, worker: usize, zero_count: usize) -> (o: Outcome)
    ensures
        o.candidate() == candidate,
        o.worker() == worker,
        o.ok(zero_count),
{
    let encoded = vstd::bytes::u64_to_le_bytes(candidate);
    let digest = sha256_digest(encoded.as_slice());
    if has_trailing_zeros(digest.as_slice(), zero_count) {
        let digest_hex = hex_string(digest.as_slice());
        Outcome::Match { candidate, worker, digest_hex }
    } else {
        Outcome::NoMatch { candidate, worker }
    }
}

/// The candidate a worker evaluates after `candidate`, one stride further
/// along its partition of the search space.
pub fn next_candidate(candidate: u64, stride: u64) -> (n: u64)
    requires
        candidate + stride <= u64::MAX,
    ensures
        n == candidate + stride,
{
    candidate + stride
}

/// What one turn of a worker's loop decides: publish an outcome and move to
/// the next candidate, or stop.
pub enum WorkerStep {
    Publish { outcome: Outcome, next: u64 },
    Stop,
}

/// One turn of a worker's loop. The worker stops once it has observed
/// cancellation — tested only between candidates, so a digest computation
/// is never cut short — or when its partition of the 64-bit candidate
/// space is exhausted. Otherwise it evaluates its current candidate and
/// steps one stride on; publishing the outcome is the caller's concern.
pub fn worker_step(
    cancelled: bool,
    candidate: u64,
    worker: usize,
    zero_count: usize,
    stride: u64,
) -> (r: WorkerStep)
    requires
        stride >= 1,
    ensures
        (cancelled || candidate + stride > u64::MAX) <==> r is Stop,
        r matches WorkerStep::Publish { outcome, next } ==> outcome.candidate() == candidate
            && outcome.worker() == worker && outcome.ok(zero_count) && next == candidate + stride,
{
    if cancelled {
        WorkerStep::Stop
    } else if candidate > u64::MAX - stride {
        WorkerStep::Stop
    } else {
        let outcome = evaluate_candidate(candidate, worker, zero_count);
        WorkerStep::Publish { outcome, next: candidate + stride }
    }
}

} // verus!
