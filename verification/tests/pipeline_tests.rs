use hashsearch::merger::{MatchRecord, Merger};
use hashsearch::worker::{evaluate_candidate, next_candidate, worker_step, Outcome, WorkerStep};
use sha2::Digest;

/// Digest computed independently of the library.
fn ref_digest(candidate: u64) -> Vec<u8> {
    sha2::Sha256::digest(candidate.to_le_bytes()).to_vec()
}

/// Trailing-zero-nibble run length computed independently of the library.
fn ref_run_length(data: &[u8]) -> usize {
    let mut count = 0;
    for byte in data.iter().rev() {
        if *byte == 0 {
            count += 2;
        } else {
            if *byte % 16 == 0 {
                count += 1;
            }
            break;
        }
    }
    count
}

fn ref_hex(data: &[u8]) -> String {
    let mut s = String::new();
    for byte in data {
        s.push_str(&format!("{:02x}", byte));
    }
    s
}

/// The first `n` candidates whose digest has a run of exactly `k`,
/// found by the reference computation alone.
fn ref_matches(k: usize, n: usize) -> Vec<u64> {
    let mut found = Vec::new();
    let mut c: u64 = 0;
    while found.len() < n {
        if ref_run_length(&ref_digest(c)) == k {
            found.push(c);
        }
        c += 1;
    }
    found
}

/// Runs the whole library pipeline with `worker_count` simulated workers
/// interleaved in a fixed but uneven order, until `target` matches are out.
fn run_search(zero_count: usize, target: usize, worker_count: usize) -> Vec<MatchRecord> {
    let mut merger = Merger::new(worker_count, target, zero_count);
    let mut next: Vec<u64> = (0..worker_count as u64).collect();
    let mut emitted: Vec<MatchRecord> = Vec::new();
    let mut step: usize = 0;
    while !merger.is_done() {
        // an uneven but fair schedule over the workers
        let w = (step * step + step / 3) % worker_count;
        step += 1;
        let candidate = next[w];
        next[w] = next_candidate(candidate, worker_count as u64);
        let outcome: Outcome = evaluate_candidate(candidate, w, zero_count);
        for rec in merger.on_outcome(outcome) {
            emitted.push(rec);
        }
    }
    emitted
}

#[test]
fn hex_rendering_matches_reference() {
    let bytes: Vec<u8> = vec![0x00, 0x01, 0x9f, 0xa0, 0xff, 0x10];
    assert_eq!(hashsearch::hashing::hex_string(&bytes), "00019fa0ff10");
    assert_eq!(hashsearch::hashing::hex_string(&[]), "");
}

#[test]
fn single_worker_finds_three_smallest() {
    // zero_count = 1, hash_count = 3, worker_count = 1
    let emitted = run_search(1, 3, 1);
    let expected = ref_matches(1, 3);
    assert_eq!(emitted.len(), 3);
    for (rec, want) in emitted.iter().zip(expected.iter()) {
        assert_eq!(rec.candidate, *want);
        assert_eq!(rec.digest_hex, ref_hex(&ref_digest(*want)));
    }
}

#[test]
fn four_workers_agree_with_one() {
    // worker_count = 4, hash_count = 5: parallelism must not change the result
    let parallel = run_search(1, 5, 4);
    let serial = run_search(1, 5, 1);
    assert_eq!(parallel.len(), 5);
    assert_eq!(serial.len(), 5);
    for (p, s) in parallel.iter().zip(serial.iter()) {
        assert_eq!(p.candidate, s.candidate);
        assert_eq!(p.digest_hex, s.digest_hex);
    }
}

#[test]
fn emitted_candidates_ascend_and_all_match() {
    let emitted = run_search(2, 4, 3);
    assert_eq!(emitted.len(), 4);
    for i in 0..emitted.len() {
        if i > 0 {
            assert!(emitted[i - 1].candidate < emitted[i].candidate);
        }
        let digest = ref_digest(emitted[i].candidate);
        assert_eq!(ref_run_length(&digest), 2);
        assert_eq!(emitted[i].digest_hex, ref_hex(&digest));
    }
}

#[test]
fn match_outcome_carries_true_digest_rendering() {
    // would fail if the digest were not SHA-256 or the rendering not hex
    let mut c: u64 = 0;
    let found = loop {
        match evaluate_candidate(c, 0, 1) {
            Outcome::Match { candidate, digest_hex, .. } => break (candidate, digest_hex),
            Outcome::NoMatch { .. } => c += 1,
        }
    };
    let digest = ref_digest(found.0);
    assert_eq!(ref_run_length(&digest), 1);
    assert_eq!(found.1, ref_hex(&digest));
    assert_eq!(found.1.len(), 64);
}

#[test]
fn worker_stops_on_cancellation_or_exhaustion() {
    assert!(matches!(worker_step(true, 7, 3, 1, 4), WorkerStep::Stop));
    assert!(matches!(
        worker_step(false, u64::MAX - 3, 0, 1, 4),
        WorkerStep::Stop
    ));
    match worker_step(false, 7, 3, 1, 4) {
        WorkerStep::Publish { outcome, next } => {
            assert_eq!(next, 11);
            match outcome {
                Outcome::Match { candidate, worker, .. } => {
                    assert_eq!(candidate, 7);
                    assert_eq!(worker, 3);
                    assert_eq!(ref_run_length(&ref_digest(7)), 1);
                }
                Outcome::NoMatch { candidate, worker } => {
                    assert_eq!(candidate, 7);
                    assert_eq!(worker, 3);
                    assert_ne!(ref_run_length(&ref_digest(7)), 1);
                }
            }
        }
        WorkerStep::Stop => panic!("worker must publish when not cancelled"),
    }
}

#[test]
fn classification_agrees_with_reference() {
    for c in 0u64..200 {
        let run = ref_run_length(&ref_digest(c));
        match evaluate_candidate(c, 0, 1) {
            Outcome::Match { candidate, .. } => {
                assert_eq!(candidate, c);
                assert_eq!(run, 1);
            }
            Outcome::NoMatch { candidate, .. } => {
                assert_eq!(candidate, c);
                assert_ne!(run, 1);
            }
        }
    }
}
