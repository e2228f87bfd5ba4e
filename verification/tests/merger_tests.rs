use hashsearch::merger::Merger;
use hashsearch::worker::Outcome;

fn match_outcome(candidate: u64, worker: usize) -> Outcome {
    Outcome::Match {
        candidate,
        worker,
        digest_hex: format!("digest-{}", candidate),
    }
}

fn no_match_outcome(candidate: u64, worker: usize) -> Outcome {
    Outcome::NoMatch { candidate, worker }
}

#[test]
fn reorders_matches_across_workers() {
    // worker 1 finds its match first, but candidate 0 must come out first
    let mut merger = Merger::new(2, 2, 1);

    let first = merger.on_outcome(match_outcome(1, 1));
    assert_eq!(first.len(), 0);
    assert!(!merger.is_done());

    let second = merger.on_outcome(match_outcome(0, 0));
    assert_eq!(second.len(), 1);
    assert_eq!(second[0].candidate, 0);
    assert!(!merger.is_done());

    let third = merger.on_outcome(no_match_outcome(2, 0));
    assert_eq!(third.len(), 1);
    assert_eq!(third[0].candidate, 1);
    assert!(merger.is_done());
    assert_eq!(merger.emitted_so_far(), 2);
}

#[test]
fn holds_match_until_watermark_reaches_it() {
    let mut merger = Merger::new(3, 1, 1);
    // worker 2 reports a match at 5; workers 0 and 1 are still at 0
    assert_eq!(merger.on_outcome(match_outcome(2, 2)).len(), 0);
    assert_eq!(merger.on_outcome(no_match_outcome(5, 2)).len(), 0);
    assert_eq!(merger.on_outcome(no_match_outcome(0, 0)).len(), 0);
    assert_eq!(merger.on_outcome(no_match_outcome(1, 1)).len(), 0);
    // only once every worker has passed 2 is the match emitted
    let out = merger.on_outcome(no_match_outcome(3, 0));
    assert_eq!(out.len(), 0); // floor is min(3, 1, 5) = 1 < 2
    let out = merger.on_outcome(no_match_outcome(4, 1));
    assert_eq!(out.len(), 1);
    assert_eq!(out[0].candidate, 2);
    assert!(merger.is_done());
}

#[test]
fn emits_exactly_the_target_count() {
    // a single worker whose every candidate matches: emission stops at the
    // target even though more matches are already buffered or arriving
    let mut merger = Merger::new(1, 3, 1);
    let mut emitted: Vec<u64> = Vec::new();
    let mut candidate: u64 = 0;
    while !merger.is_done() {
        for rec in merger.on_outcome(match_outcome(candidate, 0)) {
            emitted.push(rec.candidate);
        }
        candidate += 1;
    }
    assert_eq!(emitted, vec![0, 1, 2]);
    assert_eq!(merger.emitted_so_far(), 3);
}

#[test]
fn emitted_sequence_is_strictly_increasing() {
    // four workers, a skewed arrival order, matches on every third candidate
    let worker_count: usize = 4;
    let mut merger = Merger::new(worker_count, 6, 1);
    let mut next: Vec<u64> = (0..worker_count as u64).collect();
    let schedule = [3usize, 3, 0, 1, 3, 2, 0, 0, 1, 2, 2, 1, 0, 3];
    let mut emitted: Vec<u64> = Vec::new();
    let mut step: usize = 0;
    while !merger.is_done() {
        let w = schedule[step % schedule.len()];
        step += 1;
        let c = next[w];
        next[w] = c + worker_count as u64;
        let outcome = if c % 3 == 0 {
            match_outcome(c, w)
        } else {
            no_match_outcome(c, w)
        };
        for rec in merger.on_outcome(outcome) {
            emitted.push(rec.candidate);
        }
    }
    assert_eq!(emitted.len(), 6);
    for i in 1..emitted.len() {
        assert!(emitted[i - 1] < emitted[i]);
    }
    assert_eq!(emitted, vec![0, 3, 6, 9, 12, 15]);
}
