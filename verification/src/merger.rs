//! The ordered merger: the watermark algorithm that turns the unordered
//! stream of worker outcomes back into a strictly ascending stream of
//! matches, and decides when the search is complete.
//!
//! Each worker enumerates its own partition in strictly increasing order,
//! so once every worker's progress has reached a value `c`, no match below
//! `c` can still appear. The merger tracks per-worker progress, buffers
//! matches in a min-ordered pending list, and emits a buffered match as
//! soon as the minimum progress over all workers — the watermark — has
//! reached its candidate. Once the required number of matches has been
//! emitted the merger is done and emits nothing more.

use crate::hashing::hex_of;
use crate::worker::{candidate_digest, candidate_matches, Outcome};
use vstd::arithmetic::div_mod::{
    lemma_fundamental_div_mod, lemma_mod_bound, lemma_mod_multiples_vanish,
};
use vstd::prelude::*;

verus! {

/// A sequence that is strictly increasing: later entries are larger.
pub open spec fn strictly_increasing(s: Seq<u64>) -> bool {
    forall|i: int, j: int| 0 <= i < j < s.len() ==> s[i] < s[j]
}

/// One emitted result: a matching candidate and its digest's rendering.
pub struct MatchRecord {
    pub candidate: u64,
    pub digest_hex: String,
}

/// A record that truthfully describes a matching candidate.
pub open spec fn record_ok(r: MatchRecord, zero_count: usize) -> bool {
    &&& candidate_matches(r.candidate, zero_count)
    &&& r.digest_hex@ == hex_of(candidate_digest(r.candidate))
}

/// The merger's state. The executable fields are what the algorithm reads;
/// the ghost fields carry the history the contracts speak of: which workers
/// have reported, which candidates have been emitted, and which delivered
/// candidates were matches.
pub struct Merger {
    /// How many workers feed this merger; also the stride of each worker's
    /// partition.
    pub worker_count: usize,
    /// How many matches are to be emitted in all.
    pub target: usize,
    /// For each worker, the candidate of its latest outcome (`0` before its
    /// first one). Progress is monotone because each worker's stream is
    /// strictly increasing.
    pub progress: Vec<u64>,
    /// Matches received but not yet safe to emit, strictly ascending by
    /// candidate.
    pub pending: Vec<MatchRecord>,
    /// How many matches have been emitted so far.
    pub emitted_count: usize,
    /// Whether the target has been reached; set in the same step that emits
    /// the final match.
    pub done: bool,
    /// The required trailing-zero-nibble count the workers search for.
    pub zero_count: Ghost<usize>,
    /// For each worker, whether any outcome of it has arrived yet.
    pub reported: Ghost<Seq<bool>>,
    /// The candidates emitted so far, in emission order.
    pub emitted: Ghost<Seq<u64>>,
    /// The candidates delivered so far whose outcome was a match.
    pub matched: Ghost<Set<u64>>,
}

impl Merger {
    /// Whether candidate `c` has been delivered: its owning worker has
    /// reported, and its progress has reached `c`.
    pub open spec fn delivered(self, c: u64) -> bool {
        let w = c as int % self.worker_count as int;
        &&& self.reported@[w]
        &&& c <= self.progress@[w]
    }

    /// The candidate the next outcome of worker `w` must report: workers
    /// start at their own index and step by the worker count, and the
    /// channel preserves each worker's order.
    pub open spec fn expected_next(self, w: int) -> int {
        if self.reported@[w] {
            self.progress@[w] + self.worker_count
        } else {
            w
        }
    }

    /// The merger's invariant.
    pub open spec fn wf(self) -> bool {
        &&& self.worker_count >= 1
        &&& self.target >= 1
        &&& self.progress@.len() == self.worker_count
        &&& self.reported@.len() == self.worker_count
        &&& self.emitted@.len() == self.emitted_count
        &&& self.emitted_count <= self.target
        &&& (self.done <==> self.emitted_count == self.target)
        &&& strictly_increasing(self.emitted@)
        &&& (forall|i: int, j: int|
            0 <= i < j < self.pending@.len() ==> self.pending@[i].candidate
                < self.pending@[j].candidate)
        &&& (forall|i: int, j: int|
            0 <= i < self.emitted@.len() && 0 <= j < self.pending@.len() ==> self.emitted@[i]
                < self.pending@[j].candidate)
        &&& (forall|i: int, w: int|
            0 <= i < self.emitted@.len() && 0 <= w < self.progress@.len() ==> self.emitted@[i]
                <= self.progress@[w])
        &&& (forall|j: int|
            0 <= j < self.pending@.len() ==> record_ok(#[trigger] self.pending@[j],
                self.zero_count@))
        &&& (forall|w: int|
            0 <= w < self.worker_count && !self.reported@[w] ==> self.progress@[w] == 0)
        &&& (forall|w: int|
            0 <= w < self.worker_count && self.reported@[w] ==> self.progress@[w] as int
                % self.worker_count as int == w)
        &&& (forall|c: u64|
            #[trigger] self.matched@.contains(c) <==> self.emitted@.contains(c)
                || self.pending_has(c))
        &&& (forall|c: u64|
            #[trigger] self.matched@.contains(c) ==> self.delivered(c) && candidate_matches(
                c,
                self.zero_count@,
            ))
        &&& (forall|c: u64|
            self.delivered(c) && candidate_matches(c, self.zero_count@) ==> self.matched@.contains(
                c,
            ))
    }

    /// A fresh merger for `worker_count` workers, required to emit `target`
    /// matches of the condition `zero_count`.
    pub fn new(worker_count: usize, target: usize, zero_count: usize) -> (m: Merger)
        requires
            worker_count >= 1,
            target >= 1,
        ensures
            m.wf(),
            m.worker_count == worker_count,
            m.target == target,
            m.zero_count@ == zero_count,
            !m.done,
            m.emitted@ == Seq::<u64>::empty(),
            m.pending@.len() == 0,
            m.matched@ == Set::<u64>::empty(),
            forall|w: int| 0 <= w < worker_count ==> !m.reported@[w] && m.progress@[w] == 0,
    {
        let progress: Vec<u64> = vec![0u64; worker_count];
        let m = Merger {
            worker_count,
            target,
            progress,
            pending: Vec::new(),
            emitted_count: 0,
            done: false,
            zero_count: Ghost(zero_count),
            reported: Ghost(Seq::new(worker_count as nat, |w: int| false)),
            emitted: Ghost(Seq::empty()),
            matched: Ghost(Set::empty()),
        };
        proof {
            assert forall|c: u64| !m.matched@.contains(c) by {}
            assert(m.wf());
        }
        m
    }
}

/// Two numbers with the same residue are at least a full stride apart.
proof fn lemma_same_residue_gap(a: int, b: int, m: int)
    requires
        m > 0,
        0 <= b < a,
        a % m == b % m,
    ensures
        a >= b + m,
{
    lemma_fundamental_div_mod(a, m);
    lemma_fundamental_div_mod(b, m);
    assert(a >= b + m) by (nonlinear_arith)
        requires
            m > 0,
            b < a,
            a == m * (a / m) + a % m,
            b == m * (b / m) + b % m,
            a % m == b % m,
    {}
}

impl Merger {
    /// Feeds one worker outcome to the merger: records the worker's
    /// progress, buffers the outcome if it is a match, and emits every
    /// buffered match the watermark now covers, in ascending order, until
    /// the target count is reached. Returns the newly emitted results.
    #[verifier::rlimit(100)]
    pub fn on_outcome(&mut self, outcome: Outcome) -> (emitted_now: Vec<MatchRecord>)
        requires
            old(self).wf(),
            !old(self).done,
            outcome.worker() < old(self).worker_count,
            outcome.ok(old(self).zero_count@),
            outcome.candidate() as int == old(self).expected_next(outcome.worker() as int),
        ensures
            final(self).wf(),
            final(self).worker_count == old(self).worker_count,
            final(self).target == old(self).target,
            final(self).zero_count@ == old(self).zero_count@,
            final(self).reported@ == old(self).reported@.update(outcome.worker() as int, true),
            final(self).progress@ == old(self).progress@.update(
                outcome.worker() as int,
                outcome.candidate(),
            ),
            final(self).matched@ == (if outcome.is_match() {
                old(self).matched@.insert(outcome.candidate())
            } else {
                old(self).matched@
            }),
            final(self).emitted@ == old(self).emitted@ + emitted_now@.map_values(
                (|r: MatchRecord| r.candidate),
            ),
            forall|i: int|
                0 <= i < emitted_now@.len() ==> record_ok(
                    #[trigger] emitted_now@[i],
                    final(self).zero_count@,
                ),
            final(self).done <==> final(self).emitted@.len() == final(self).target,
            !final(self).done ==> forall|j: int|
                0 <= j < final(self).pending@.len() ==> exists|w: int|
                    0 <= w < final(self).progress@.len() && (#[trigger] final(self).pending@[j]).candidate
                        > final(self).progress@[w],
    {
        let ghost pre = *old(self);
        let ghost wcount = pre.worker_count as int;
        let (c, w, rec_opt): (u64, usize, Option<MatchRecord>) = match outcome {
            Outcome::Match { candidate, worker, digest_hex } => (
                candidate,
                worker,
                Some(MatchRecord { candidate, digest_hex }),
            ),
            Outcome::NoMatch { candidate, worker } => (candidate, worker, None),
        };
        proof {
            // The new candidate sits exactly one stride beyond the worker's
            // previous progress, in the worker's own residue class, and has
            // not been delivered before.
            if pre.reported@[w as int] {
                lemma_mod_multiples_vanish(1, pre.progress@[w as int] as int, wcount);
                assert(c as int % wcount == pre.progress@[w as int] as int % wcount);
            } else {
                vstd::arithmetic::div_mod::lemma_small_mod(w as nat, pre.worker_count as nat);
            }
            assert(c as int % wcount == w as int);
            assert(!pre.delivered(c));
            // Every already emitted candidate lies strictly below it.
            assert forall|i: int| 0 <= i < pre.emitted@.len() implies pre.emitted@[i] < c by {
                if pre.reported@[w as int] {
                    assert(pre.emitted@[i] <= pre.progress@[w as int]);
                } else {
                    assert(pre.progress@[w as int] == 0);
                    assert(pre.emitted@[i] == 0);
                    if c == 0 {
                        assert(w as int == 0);
                        assert(pre.emitted@.contains(pre.emitted@[i]));
                        assert(pre.matched@.contains(0u64));
                        assert(pre.delivered(0u64));
                        vstd::arithmetic::div_mod::lemma_small_mod(0nat, pre.worker_count as nat);
                        assert(false);
                    }
                }
            }
        }
        self.progress[w] = c;
        self.reported = Ghost(self.reported@.update(w as int, true));
        proof {
            // Delivery grows by exactly the new candidate.
            assert forall|x: u64| pre.delivered(x) implies self.delivered(x) by {
                let wx = x as int % wcount;
                if wx == w as int {
                    assert(pre.progress@[wx] <= c);
                }
            }
            assert forall|x: u64| self.delivered(x) && x != c implies pre.delivered(x) by {
                let wx = x as int % wcount;
                if wx == w as int {
                    assert(x <= c);
                    if !pre.reported@[w as int] {
                        // the worker's first outcome is its own index
                        vstd::arithmetic::div_mod::lemma_mod_decreases(
                            x as nat,
                            pre.worker_count as nat,
                        );
                        assert(x >= w as u64);
                        assert(false);
                    } else {
                        if x > pre.progress@[w as int] {
                            lemma_same_residue_gap(
                                x as int,
                                pre.progress@[w as int] as int,
                                wcount,
                            );
                            assert(false);
                        }
                    }
                }
            }
            assert(self.delivered(c));
        }
        match rec_opt {
            Some(rec) => {
                let ghost oldp = self.pending@;
                let mut idx: usize = 0;
                let pending_len = self.pending.len();
                while idx < pending_len && self.pending[idx].candidate < c
                    invariant
                        idx <= pending_len,
                        pending_len == self.pending@.len(),
                        self.pending@ == oldp,
                        forall|k: int| 0 <= k < idx ==> self.pending@[k].candidate < c,
                    decreases pending_len - idx,
                {
                    idx = idx + 1;
                }
                proof {
                    // the new candidate is not already buffered
                    assert forall|j: int| 0 <= j < oldp.len() implies oldp[j].candidate != c by {
                        if oldp[j].candidate == c {
                            assert(pre.matched@.contains(c));
                            assert(pre.delivered(c));
                        }
                    }
                    if idx < oldp.len() {
                        assert(oldp[idx as int].candidate > c);
                    }
                    oldp.insert_ensures(idx as int, rec);
                }
                self.pending.insert(idx, rec);
                self.matched = Ghost(self.matched@.insert(c));
                proof {
                    let np = self.pending@;
                    assert forall|i: int, j: int|
                        0 <= i < j < np.len() implies np[i].candidate < np[j].candidate by {
                        if j < idx {
                        } else if i < idx && j == idx {
                            assert(np[j].candidate == c);
                        } else if i < idx && j > idx {
                            assert(np[j].candidate == oldp[j - 1].candidate);
                            assert(oldp[j - 1].candidate >= oldp[idx as int].candidate);
                        } else if i == idx {
                            assert(np[j].candidate == oldp[j - 1].candidate);
                        } else {
                        }
                    }
                    assert forall|x: u64| #[trigger]
                        self.matched@.contains(x) implies self.emitted@.contains(x)
                        || self.pending_has(x) by {
                        if x == c {
                            assert(np[idx as int].candidate == c);
                        } else {
                            assert(pre.matched@.contains(x));
                            if pre.pending_has(x) {
                                let j = choose|j: int|
                                    0 <= j < oldp.len() && (#[trigger] oldp[j]).candidate == x;
                                if j < idx {
                                    assert(np[j].candidate == x);
                                } else {
                                    assert(np[j + 1].candidate == x);
                                }
                            }
                        }
                    }
                    assert forall|x: u64|
                        self.emitted@.contains(x) || self.pending_has(x) implies #[trigger]
                        self.matched@.contains(x) by {
                        if self.pending_has(x) {
                            let j = choose|j: int|
                                0 <= j < np.len() && (#[trigger] np[j]).candidate == x;
                            if j < idx {
                                assert(oldp[j].candidate == x);
                            } else if j == idx {
                                assert(x == c);
                            } else {
                                assert(oldp[j - 1].candidate == x);
                            }
                        }
                    }
                }
            },
            None => {
                proof {
                    assert(self.pending@ == pre.pending@);
                    assert forall|x: u64| #[trigger]
                        self.matched@.contains(x) implies self.emitted@.contains(x)
                        || self.pending_has(x) by {}
                }
            },
        }
        proof {
            // the merger is well-formed again before draining
            assert forall|x: u64| #[trigger]
                self.matched@.contains(x) implies self.delivered(x) && candidate_matches(
                x,
                self.zero_count@,
            ) by {
                if x != c {
                    assert(pre.matched@.contains(x));
                    assert(pre.delivered(x));
                }
            }
            assert forall|x: u64|
                self.delivered(x) && candidate_matches(x, self.zero_count@) implies #[trigger]
                self.matched@.contains(x) by {
                if x != c {
                    assert(pre.delivered(x));
                    assert(pre.matched@.contains(x));
                }
            }
            assert(self.wf());
        }
        // the watermark: the least progress over all workers
        let mut floor: u64 = self.progress[0];
        let mut v: usize = 1;
        while v < self.worker_count
            invariant
                1 <= v <= self.worker_count,
                self.worker_count == self.progress@.len(),
                forall|k: int| 0 <= k < v ==> floor <= self.progress@[k],
                exists|k: int| 0 <= k < v && floor == self.progress@[k],
            decreases self.worker_count - v,
        {
            let pv = self.progress[v];
            if pv < floor {
                floor = pv;
            }
            v = v + 1;
        }
        let ghost mid = *self;
        let mut emitted_now: Vec<MatchRecord> = Vec::new();
        proof {
            assert(self.emitted@ =~= mid.emitted@ + emitted_now@.map_values(
                (|r: MatchRecord| r.candidate),
            ));
        }
        while !self.done && self.pending.len() > 0 && self.pending[0].candidate <= floor
            invariant
                self.wf(),
                self.worker_count == mid.worker_count,
                self.target == mid.target,
                self.zero_count == mid.zero_count,
                self.progress == mid.progress,
                self.reported == mid.reported,
                self.matched == mid.matched,
                forall|k: int| 0 <= k < self.progress@.len() ==> floor <= self.progress@[k],
                exists|k: int| 0 <= k < self.progress@.len() && floor == self.progress@[k],
                self.emitted@ == mid.emitted@ + emitted_now@.map_values(
                    (|r: MatchRecord| r.candidate),
                ),
                forall|i: int|
                    0 <= i < emitted_now@.len() ==> record_ok(
                        #[trigger] emitted_now@[i],
                        self.zero_count@,
                    ),
            decreases self.pending@.len(),
        {
            let ghost oldself = *self;
            let ghost olden = emitted_now@;
            let r = self.pending.remove(0);
            let ghost rc = r.candidate;
            self.emitted = Ghost(self.emitted@.push(rc));
            self.emitted_count = self.emitted_count + 1;
            if self.emitted_count == self.target {
                self.done = true;
            }
            emitted_now.push(r);
            proof {
                oldself.pending@.remove_ensures(0);
                assert(emitted_now@.map_values((|r: MatchRecord| r.candidate)) =~= olden
                    .map_values((|r: MatchRecord| r.candidate)).push(rc));
                assert(self.emitted@ =~= mid.emitted@ + emitted_now@.map_values(
                    (|r: MatchRecord| r.candidate),
                ));
                // the emitted sequence stays strictly increasing, below the
                // watermark, and below everything still pending
                assert forall|i: int|
                    0 <= i < self.emitted@.len() - 1 implies self.emitted@[i] < rc by {
                    assert(oldself.emitted@[i] < oldself.pending@[0].candidate);
                }
                assert(rc <= floor);
                let ne = self.emitted@;
                assert(strictly_increasing(ne)) by {
                    assert forall|i: int, j: int| 0 <= i < j < ne.len() implies ne[i] < ne[j] by {
                        if j < ne.len() - 1 {
                            assert(oldself.emitted@[i] < oldself.emitted@[j]);
                        }
                    }
                }
                assert forall|i: int, w: int|
                    0 <= i < ne.len() && 0 <= w < self.progress@.len() implies ne[i]
                        <= self.progress@[w] by {
                    if i < ne.len() - 1 {
                        assert(oldself.emitted@[i] <= oldself.progress@[w]);
                    } else {
                        assert(ne[i] == rc);
                        assert(floor <= self.progress@[w]);
                    }
                }
                assert forall|i: int, j: int|
                    0 <= i < ne.len() && 0 <= j < self.pending@.len() implies ne[i]
                        < self.pending@[j].candidate by {
                    assert(self.pending@[j] == oldself.pending@[j + 1]);
                    if i < ne.len() - 1 {
                        assert(oldself.emitted@[i] < oldself.pending@[j + 1].candidate);
                    } else {
                        assert(ne[i] == oldself.pending@[0].candidate);
                        assert(oldself.pending@[0].candidate < oldself.pending@[j + 1].candidate);
                    }
                }
                assert forall|i: int, j: int|
                    0 <= i < j < self.pending@.len() implies self.pending@[i].candidate
                        < self.pending@[j].candidate by {
                    assert(self.pending@[i] == oldself.pending@[i + 1]);
                    assert(self.pending@[j] == oldself.pending@[j + 1]);
                }
                assert forall|j: int|
                    0 <= j < self.pending@.len() implies record_ok(
                    #[trigger] self.pending@[j],
                    self.zero_count@,
                ) by {
                    assert(self.pending@[j] == oldself.pending@[j + 1]);
                    assert(record_ok(oldself.pending@[j + 1], oldself.zero_count@));
                }
                assert forall|x: u64| #[trigger]
                    self.matched@.contains(x) implies self.emitted@.contains(x)
                    || self.pending_has(x) by {
                    if oldself.emitted@.contains(x) {
                        let i = choose|i: int|
                            0 <= i < oldself.emitted@.len() && oldself.emitted@[i] == x;
                        assert(self.emitted@[i] == x);
                    } else if oldself.pending_has(x) {
                        let j = choose|j: int|
                            0 <= j < oldself.pending@.len() && (#[trigger] oldself.pending@[j]).candidate
                                == x;
                        if j == 0 {
                            assert(self.emitted@[self.emitted@.len() - 1] == x);
                        } else {
                            assert(self.pending@[j - 1].candidate == x);
                        }
                    }
                }
                assert forall|x: u64|
                    self.emitted@.contains(x) || self.pending_has(x) implies #[trigger]
                    self.matched@.contains(x) by {
                    if self.emitted@.contains(x) {
                        let i = choose|i: int|
                            0 <= i < self.emitted@.len() && self.emitted@[i] == x;
                        if i < self.emitted@.len() - 1 {
                            assert(oldself.emitted@[i] == x);
                            assert(oldself.emitted@.contains(x));
                        } else {
                            assert(x == rc);
                            assert(oldself.pending@[0].candidate == x);
                            assert(oldself.pending_has(x));
                        }
                    } else {
                        let j = choose|j: int|
                            0 <= j < self.pending@.len() && (#[trigger] self.pending@[j]).candidate
                                == x;
                        assert(oldself.pending@[j + 1].candidate == x);
                        assert(oldself.pending_has(x));
                    }
                }
                assert(self.worker_count >= 1);
                assert(self.target >= 1);
                assert(self.progress@.len() == self.worker_count);
                assert(self.reported@.len() == self.worker_count);
                assert(self.emitted@.len() == self.emitted_count);
                assert(self.emitted_count <= self.target);
                assert(self.done <==> self.emitted_count == self.target);
                assert(forall|w: int|
                    0 <= w < self.worker_count && !self.reported@[w] ==> self.progress@[w] == 0);
                assert(forall|w: int|
                    0 <= w < self.worker_count && self.reported@[w] ==> self.progress@[w] as int
                        % self.worker_count as int == w);
                assert forall|x: u64| #[trigger]
                    self.matched@.contains(x) implies self.delivered(x) && candidate_matches(
                    x,
                    self.zero_count@,
                ) by {
                    assert(oldself.matched@.contains(x));
                    assert(oldself.delivered(x));
                }
                assert forall|x: u64|
                    self.delivered(x) && candidate_matches(x, self.zero_count@) implies #[trigger]
                    self.matched@.contains(x) by {
                    assert(oldself.delivered(x));
                }
                assert(self.wf());
            }
        }
        proof {
            if !self.done && self.pending@.len() > 0 {
                let k = choose|k: int|
                    0 <= k < self.progress@.len() && floor == self.progress@[k];
                assert forall|j: int|
                    0 <= j < self.pending@.len() implies exists|w: int|
                        0 <= w < self.progress@.len() && (#[trigger] self.pending@[j]).candidate
                            > self.progress@[w] by {
                    assert(self.pending@[j].candidate >= self.pending@[0].candidate);
                    assert(self.pending@[j].candidate > self.progress@[k]);
                }
            }
        }
        emitted_now
    }

    /// Whether some buffered match reports candidate `c`.
    pub open spec fn pending_has(self, c: u64) -> bool {
        exists|j: int| 0 <= j < self.pending@.len() && (#[trigger] self.pending@[j]).candidate == c
    }

    /// Whether the merger has emitted its full target count.
    pub fn is_done(&self) -> (b: bool)
        ensures
            b == self.done,
    {
        self.done
    }

    /// How many matches have been emitted so far.
    pub fn emitted_so_far(&self) -> (n: usize)
        requires
            self.wf(),
        ensures
            n == self.emitted@.len(),
    {
        self.emitted_count
    }
}

/// The set of all candidates satisfying the search condition.
pub open spec fn match_set(zero_count: usize) -> Set<u64> {
    Set::new(|c: u64| candidate_matches(c, zero_count))
}

/// `s` is an ascending prefix of `m`: strictly increasing, drawn from `m`,
/// and with no member of `m` skipped below any of its entries.
pub open spec fn prefix_of_set(s: Seq<u64>, m: Set<u64>) -> bool {
    &&& strictly_increasing(s)
    &&& (forall|i: int| 0 <= i < s.len() ==> m.contains(#[trigger] s[i]))
    &&& (forall|x: u64, i: int|
        #[trigger] m.contains(x) && 0 <= i < s.len() && x < #[trigger] s[i] ==> s.take(i).contains(
            x,
        ))
}

/// The merger only ever emits the ascending enumeration of the matching
/// candidates, from the smallest upward: every match below an emitted
/// candidate has itself been emitted, earlier. This is the heart of both
/// the ordering and the determinism of the search.
pub proof fn lemma_emitted_prefix(m: Merger)
    requires
        m.wf(),
    ensures
        prefix_of_set(m.emitted@, match_set(m.zero_count@)),
{
    let s = m.emitted@;
    let ms = match_set(m.zero_count@);
    assert forall|i: int| 0 <= i < s.len() implies ms.contains(#[trigger] s[i]) by {
        assert(s.contains(s[i]));
        assert(m.matched@.contains(s[i]));
    }
    assert forall|x: u64, i: int|
        #[trigger] ms.contains(x) && 0 <= i < s.len() && x < #[trigger] s[i] implies s.take(
        i,
    ).contains(x) by {
        if m.delivered(x) {
            assert(m.matched@.contains(x));
            if m.pending_has(x) {
                let j = choose|j: int|
                    0 <= j < m.pending@.len() && (#[trigger] m.pending@[j]).candidate == x;
                assert(s[i] < m.pending@[j].candidate);
                assert(false);
            } else {
                assert(s.contains(x));
                let k = choose|k: int| 0 <= k < s.len() && s[k] == x;
                assert(k < i);
                assert(s.take(i)[k] == x);
            }
        } else {
            let wx = x as int % m.worker_count as int;
            vstd::arithmetic::div_mod::lemma_mod_bound(x as int, m.worker_count as int);
            assert(s.contains(s[i]));
            assert(m.matched@.contains(s[i]));
            if m.reported@[wx] {
                assert(x > m.progress@[wx]);
                assert(s[i] <= m.progress@[wx]);
                assert(false);
            } else {
                assert(m.progress@[wx] == 0);
                assert(s[i] <= m.progress@[wx]);
                assert(false);
            }
        }
    }
}

proof fn lemma_prefix_unique_upto(s1: Seq<u64>, s2: Seq<u64>, m: Set<u64>, i: int)
    requires
        prefix_of_set(s1, m),
        prefix_of_set(s2, m),
        s1.len() == s2.len(),
        0 <= i <= s1.len(),
    ensures
        s1.take(i) == s2.take(i),
    decreases i,
{
    if i > 0 {
        lemma_prefix_unique_upto(s1, s2, m, i - 1);
        let a = s1[i - 1];
        let b = s2[i - 1];
        if a < b {
            assert(m.contains(a));
            assert(s2.take(i - 1).contains(a));
            assert(s1.take(i - 1).contains(a));
            let k = choose|k: int| 0 <= k < i - 1 && #[trigger] s1.take(i - 1)[k] == a;
            assert(s1[k] == a);
            assert(s1[k] < s1[i - 1]);
            assert(false);
        }
        if b < a {
            assert(m.contains(b));
            assert(s1.take(i - 1).contains(b));
            assert(s2.take(i - 1).contains(b));
            let k = choose|k: int| 0 <= k < i - 1 && #[trigger] s2.take(i - 1)[k] == b;
            assert(s2[k] == b);
            assert(s2[k] < s2[i - 1]);
            assert(false);
        }
        assert forall|k: int| 0 <= k < i implies s1.take(i)[k] == s2.take(i)[k] by {
            if k < i - 1 {
                assert(s1.take(i - 1)[k] == s2.take(i - 1)[k]);
            }
        }
        assert(s1.take(i) =~= s2.take(i));
    } else {
        assert(s1.take(0) =~= s2.take(0));
    }
}

/// Two ascending prefixes of one set that have the same length are the
/// same sequence.
pub proof fn lemma_prefix_unique(s1: Seq<u64>, s2: Seq<u64>, m: Set<u64>)
    requires
        prefix_of_set(s1, m),
        prefix_of_set(s2, m),
        s1.len() == s2.len(),
    ensures
        s1 == s2,
{
    lemma_prefix_unique_upto(s1, s2, m, s1.len() as int);
    assert(s1.take(s1.len() as int) =~= s1);
    assert(s2.take(s2.len() as int) =~= s2);
}

/// Determinism: two merger runs whose workers search for the same
/// trailing-zero-nibble count emit the same candidates in the same order,
/// however their worker counts, schedules and interleavings differ, as far
/// as both runs have emitted equally many results.
pub proof fn lemma_deterministic(a: Merger, b: Merger)
    requires
        a.wf(),
        b.wf(),
        a.zero_count@ == b.zero_count@,
        a.emitted@.len() == b.emitted@.len(),
    ensures
        a.emitted@ == b.emitted@,
{
    lemma_emitted_prefix(a);
    lemma_emitted_prefix(b);
    lemma_prefix_unique(a.emitted@, b.emitted@, match_set(a.zero_count@));
}

/// Ordering invariant: whatever the interleaving of worker outcomes, the
/// emitted candidates form a strictly increasing sequence.
pub proof fn lemma_emitted_strictly_increasing(m: Merger)
    requires
        m.wf(),
    ensures
        strictly_increasing(m.emitted@),
{
}

/// Completeness bound: the merger never emits more than its target count,
/// and it is done exactly when the target count has been emitted.
pub proof fn lemma_emitted_count_bounded(m: Merger)
    requires
        m.wf(),
    ensures
        m.emitted@.len() <= m.target,
        m.done <==> m.emitted@.len() == m.target,
{
}

} // verus!
