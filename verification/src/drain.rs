//! The job-draining engine as a verified state machine.
//!
//! Submitting a job, waiting on the scheduler and parsing an output file are
//! all unverifiable input/output, so the engine is split: this module holds
//! the decisions (which jobs to submit next under the chunk size and the
//! outstanding-job cap, what a success, failure or pre-existing output does
//! to the state, when the drain is finished) and an unverified driver loop
//! performs the actions and feeds the outcomes back as events.
//!
//! Energies are routed purely by job id — the scheduler may complete jobs in
//! any order — and are carried as opaque 64-bit payloads chosen by the
//! caller (its floating-point bit patterns).  A transient failure is retried
//! up to a bounded count; a job that exhausts its retries is recorded as
//! failed and, in the tolerant mode, the run continues without it.

use vstd::prelude::*;

verus! {

/// What the engine knows about one job.
#[derive(Clone, Copy, PartialEq, Eq, Structural, Debug)]
pub enum JobState {
    /// Not yet handed to the scheduler (or handed back for a retry).
    Pending,
    /// With the scheduler, outcome unknown.
    Submitted,
    /// Energy recorded.
    Done,
    /// Retries exhausted; excluded from the results.
    Failed,
}

/// One job: its id is the position in the result buffer its energy is
/// written to, and never anything else.
#[derive(Clone, Copy, PartialEq, Eq, Structural, Debug)]
pub struct Job {
    pub id: usize,
}

/// Engine configuration.
#[derive(Clone, Copy, PartialEq, Eq, Structural, Debug)]
pub struct DrainConfig {
    /// Jobs handed to the scheduler per submission.
    pub chunk_size: usize,
    /// Greatest number of jobs outstanding with the scheduler at once.
    pub job_limit: usize,
    /// How many times a failing job is re-submitted before giving up.
    pub max_retries: usize,
    /// Whether pre-existing completed output is trusted (checkpoint resume).
    pub resume: bool,
}

/// The draining engine's state.
pub struct Drain {
    pub cfg: DrainConfig,
    pub jobs: Vec<Job>,
    pub state: Vec<JobState>,
    pub retries: Vec<usize>,
    pub energies: Vec<u64>,
    pub outstanding: usize,
}

/// Ghost model of the engine: plain sequences, one entry per job.
pub struct DrainView {
    pub chunk_size: nat,
    pub job_limit: nat,
    pub max_retries: nat,
    pub resume: bool,
    pub ids: Seq<usize>,
    pub state: Seq<JobState>,
    pub retries: Seq<nat>,
    pub energies: Seq<u64>,
    pub outstanding: nat,
}

impl View for Drain {
    type V = DrainView;

    open spec fn view(&self) -> DrainView {
        DrainView {
            chunk_size: self.cfg.chunk_size as nat,
            job_limit: self.cfg.job_limit as nat,
            max_retries: self.cfg.max_retries as nat,
            resume: self.cfg.resume,
            ids: Seq::new(self.jobs@.len(), |a: int| self.jobs@[a].id),
            state: self.state@,
            retries: Seq::new(self.retries@.len(), |a: int| self.retries@[a] as nat),
            energies: self.energies@,
            outstanding: self.outstanding as nat,
        }
    }
}

/// Number of submitted jobs in a state sequence.
pub open spec fn count_submitted(s: Seq<JobState>) -> int
    decreases s.len(),
{
    if s.len() == 0 {
        0
    } else {
        count_submitted(s.drop_last()) + if s.last() is Submitted {
            1int
        } else {
            0int
        }
    }
}

/// Changing one entry changes the submitted count by the entries' difference.
pub proof fn lemma_count_submitted_update(s: Seq<JobState>, a: int, v: JobState)
    requires
        0 <= a < s.len(),
    ensures
        count_submitted(s.update(a, v)) == count_submitted(s) - (if s[a] is Submitted {
            1int
        } else {
            0int
        }) + (if v is Submitted {
            1int
        } else {
            0int
        }),
    decreases s.len(),
{
    let t = s.update(a, v);
    if a == s.len() - 1 {
        assert(t.drop_last() =~= s.drop_last());
    } else {
        assert(t.drop_last() =~= s.drop_last().update(a, v));
        lemma_count_submitted_update(s.drop_last(), a, v);
        assert(t.last() == s.last());
    }
}

/// The submitted count is never negative and never exceeds the length.
pub proof fn lemma_count_submitted_bounds(s: Seq<JobState>)
    ensures
        0 <= count_submitted(s) <= s.len(),
    decreases s.len(),
{
    if s.len() > 0 {
        lemma_count_submitted_bounds(s.drop_last());
    }
}

/// A submitted entry makes the submitted count positive.
pub proof fn lemma_count_submitted_pos(s: Seq<JobState>, a: int)
    requires
        0 <= a < s.len(),
        s[a] is Submitted,
    ensures
        count_submitted(s) >= 1,
    decreases s.len(),
{
    lemma_count_submitted_bounds(s.drop_last());
    if a < s.len() - 1 {
        lemma_count_submitted_pos(s.drop_last(), a);
    }
}

/// Engine well-formedness: aligned per-job tables, every id inside the
/// result buffer, ids pairwise distinct (so writes never collide), and the
/// outstanding counter equal to the number of submitted jobs.
pub open spec fn drain_wf(v: DrainView) -> bool {
    &&& v.state.len() == v.ids.len()
    &&& v.retries.len() == v.ids.len()
    &&& forall|a: int| 0 <= a < v.ids.len() ==> (#[trigger] v.ids[a]) < v.energies.len()
    &&& forall|a: int, b: int|
        0 <= a < v.ids.len() && 0 <= b < v.ids.len() && a != b ==> (#[trigger] v.ids[a])
            != (#[trigger] v.ids[b])
    &&& v.outstanding == count_submitted(v.state)
    &&& v.chunk_size >= 1
}

impl Drain {
    /// A fresh engine: all jobs pending, the result buffer zeroed.
    ///
    /// Requires pairwise-distinct job ids addressing a buffer of
    /// `nenergies` slots, and a positive chunk size.
    pub fn new(jobs: Vec<Job>, nenergies: usize, cfg: DrainConfig) -> (r: Drain)
        requires
            forall|a: int| 0 <= a < jobs@.len() ==> (#[trigger] jobs@[a].id) < nenergies,
            forall|a: int, b: int|
                0 <= a < jobs@.len() && 0 <= b < jobs@.len() && a != b ==> (#[trigger] jobs@[a].id)
                    != (#[trigger] jobs@[b].id),
            cfg.chunk_size >= 1,
        ensures
            drain_wf(r@),
            r@.ids.len() == jobs@.len(),
            forall|a: int| 0 <= a < jobs@.len() ==> #[trigger] r@.ids[a] == jobs@[a].id,
            forall|a: int| 0 <= a < jobs@.len() ==> #[trigger] r@.state[a] is Pending,
            forall|a: int| 0 <= a < jobs@.len() ==> #[trigger] r@.retries[a] == 0,
            r@.energies.len() == nenergies,
            forall|e: int| 0 <= e < nenergies ==> #[trigger] r@.energies[e] == 0u64,
            r@.outstanding == 0,
            r@.chunk_size == cfg.chunk_size,
            r@.job_limit == cfg.job_limit,
            r@.max_retries == cfg.max_retries,
            r@.resume == cfg.resume,
    {
        let njobs = jobs.len();
        let mut state: Vec<JobState> = Vec::new();
        let mut retries: Vec<usize> = Vec::new();
        let mut a: usize = 0;
        while a < njobs
            invariant
                a <= njobs,
                state@.len() == a,
                retries@.len() == a,
                forall|a2: int| 0 <= a2 < a ==> #[trigger] state@[a2] is Pending,
                forall|a2: int| 0 <= a2 < a ==> #[trigger] retries@[a2] == 0,
            decreases njobs - a,
        {
            state.push(JobState::Pending);
            retries.push(0);
            a = a + 1;
        }
        let mut energies: Vec<u64> = Vec::new();
        let mut e: usize = 0;
        while e < nenergies
            invariant
                e <= nenergies,
                energies@.len() == e,
                forall|e2: int| 0 <= e2 < e ==> #[trigger] energies@[e2] == 0u64,
            decreases nenergies - e,
        {
            energies.push(0);
            e = e + 1;
        }
        proof {
            lemma_count_all_pending(state@);
        }
        Drain { cfg, jobs, state, retries, energies, outstanding: 0 }
    }

    /// Records a completed job: its parsed energy is written to
    /// `energies[id]` and nowhere else, and the job leaves the scheduler.
    pub fn record_success(&mut self, a: usize, energy: u64)
        requires
            drain_wf(old(self)@),
            a < old(self)@.ids.len(),
            old(self)@.state[a as int] is Submitted,
        ensures
            drain_wf(final(self)@),
            final(self)@ == (DrainView {
                state: old(self)@.state.update(a as int, JobState::Done),
                energies: old(self)@.energies.update(old(self)@.ids[a as int] as int, energy),
                outstanding: (old(self)@.outstanding - 1) as nat,
                ..old(self)@
            }),
    {
        proof {
            lemma_count_submitted_update(self@.state, a as int, JobState::Done);
            lemma_count_submitted_pos(self@.state, a as int);
        }
        let id = self.jobs[a].id;
        self.state.set(a, JobState::Done);
        self.energies.set(id, energy);
        self.outstanding = self.outstanding - 1;
        proof {
            assert(final(self)@.ids =~= old(self)@.ids);
            assert(final(self)@.retries =~= old(self)@.retries);
        }
    }

    /// Records an abnormal termination: with retries left the job goes back
    /// to pending for re-submission, otherwise it is marked failed.  Either
    /// way it leaves the scheduler; the result buffer is untouched.
    pub fn record_failure(&mut self, a: usize)
        requires
            drain_wf(old(self)@),
            a < old(self)@.ids.len(),
            old(self)@.state[a as int] is Submitted,
        ensures
            drain_wf(final(self)@),
            old(self)@.retries[a as int] < old(self)@.max_retries ==> final(self)@ == (DrainView {
                state: old(self)@.state.update(a as int, JobState::Pending),
                retries: old(self)@.retries.update(
                    a as int,
                    (old(self)@.retries[a as int] + 1) as nat,
                ),
                outstanding: (old(self)@.outstanding - 1) as nat,
                ..old(self)@
            }),
            old(self)@.retries[a as int] >= old(self)@.max_retries ==> final(self)@ == (DrainView {
                state: old(self)@.state.update(a as int, JobState::Failed),
                outstanding: (old(self)@.outstanding - 1) as nat,
                ..old(self)@
            }),
    {
        proof {
            lemma_count_submitted_pos(self@.state, a as int);
        }
        if self.retries[a] < self.cfg.max_retries {
            proof {
                lemma_count_submitted_update(self@.state, a as int, JobState::Pending);
            }
            let r = self.retries[a];
            self.retries.set(a, r + 1);
            self.state.set(a, JobState::Pending);
            self.outstanding = self.outstanding - 1;
            proof {
                assert(final(self)@.ids =~= old(self)@.ids);
                assert(final(self)@.retries =~= old(self)@.retries.update(
                    a as int,
                    (old(self)@.retries[a as int] + 1) as nat,
                ));
            }
        } else {
            proof {
                lemma_count_submitted_update(self@.state, a as int, JobState::Failed);
            }
            self.state.set(a, JobState::Failed);
            self.outstanding = self.outstanding - 1;
            proof {
                assert(final(self)@.ids =~= old(self)@.ids);
                assert(final(self)@.retries =~= old(self)@.retries);
            }
        }
    }
}

/// The pending job indexes among the first `a` jobs, in increasing order.
pub open spec fn pending_upto(s: Seq<JobState>, a: int) -> Seq<int>
    decreases a,
{
    if a <= 0 {
        Seq::empty()
    } else {
        pending_upto(s, a - 1) + if s[a - 1] is Pending {
            seq![a - 1]
        } else {
            Seq::empty()
        }
    }
}

/// Every listed index is a pending job below `a`, and the list is
/// increasing and complete.
pub proof fn lemma_pending_upto_props(s: Seq<JobState>, a: int)
    requires
        a <= s.len(),
    ensures
        forall|p: int|
            0 <= p < pending_upto(s, a).len() ==> 0 <= #[trigger] pending_upto(s, a)[p] < a
                && s[pending_upto(s, a)[p]] is Pending,
        forall|p: int, q: int|
            0 <= p < q < pending_upto(s, a).len() ==> #[trigger] pending_upto(s, a)[p]
                < #[trigger] pending_upto(s, a)[q],
        forall|x: int|
            0 <= x < a && s[x] is Pending ==> pending_upto(s, a).contains(x),
    decreases a,
{
    if a > 0 {
        lemma_pending_upto_props(s, a - 1);
        assert forall|x: int| 0 <= x < a && s[x] is Pending implies pending_upto(s, a).contains(
            x,
        ) by {
            if x < a - 1 {
                assert(pending_upto(s, a - 1).contains(x));
                let p = pending_upto(s, a - 1).index_of(x);
                assert(0 <= p < pending_upto(s, a - 1).len() && pending_upto(s, a - 1)[p] == x);
                assert(pending_upto(s, a)[p] == x);
            } else {
                assert(pending_upto(s, a).last() == x);
            }
        }
    }
}

/// The room left for new submissions.
pub open spec fn submit_room(v: DrainView) -> int {
    if v.outstanding >= v.job_limit {
        0
    } else if v.chunk_size <= v.job_limit - v.outstanding {
        v.chunk_size as int
    } else {
        v.job_limit - v.outstanding
    }
}

impl Drain {
    /// Picks the next chunk to submit: the earliest pending jobs, as many
    /// as the chunk size and the outstanding-job cap allow, and marks them
    /// submitted.  An empty chunk means nothing can be submitted right now.
    pub fn take_chunk(&mut self) -> (r: Vec<usize>)
        requires
            drain_wf(old(self)@),
        ensures
            drain_wf(final(self)@),
            final(self)@ == (DrainView {
                state: final(self)@.state,
                outstanding: final(self)@.outstanding,
                ..old(self)@
            }),
            r@.len() == (if submit_room(old(self)@) <= pending_upto(
                old(self)@.state,
                old(self)@.state.len() as int,
            ).len() {
                submit_room(old(self)@)
            } else {
                pending_upto(old(self)@.state, old(self)@.state.len() as int).len() as int
            }),
            forall|p: int|
                0 <= p < r@.len() ==> #[trigger] r@[p] as int == pending_upto(
                    old(self)@.state,
                    old(self)@.state.len() as int,
                )[p],
            forall|p: int|
                0 <= p < r@.len() ==> (#[trigger] r@[p]) < old(self)@.state.len() && old(
                    self,
                )@.state[r@[p] as int] is Pending && final(self)@.state[r@[p] as int] is Submitted,
            forall|x: int|
                0 <= x < old(self)@.state.len() && !r@.contains(x as usize)
                    ==> final(self)@.state[x] == old(self)@.state[x],
            final(self)@.outstanding == old(self)@.outstanding + r@.len(),
            final(self)@.outstanding <= old(self)@.job_limit || r@.len() == 0,
    {
        let njobs = self.state.len();
        let room: usize = if self.outstanding >= self.cfg.job_limit {
            0
        } else if self.cfg.chunk_size <= self.cfg.job_limit - self.outstanding {
            self.cfg.chunk_size
        } else {
            self.cfg.job_limit - self.outstanding
        };
        let ghost v0 = self@;
        proof {
            assert(room as int == submit_room(v0));
            lemma_pending_upto_props(v0.state, v0.state.len() as int);
        }
        let mut r: Vec<usize> = Vec::new();
        let mut a: usize = 0;
        while a < njobs
            invariant
                a <= njobs,
                njobs == self.state@.len(),
                drain_wf(v0),
                room as int == submit_room(v0),
                v0.ids == self@.ids,
                v0.energies == self@.energies,
                v0.retries == self@.retries,
                v0.chunk_size == self@.chunk_size,
                v0.job_limit == self@.job_limit,
                v0.max_retries == self@.max_retries,
                v0.resume == self@.resume,
                v0.state.len() == njobs,
                r@.len() <= room,
                self@.outstanding == v0.outstanding + r@.len(),
                self@.outstanding == count_submitted(self@.state),
                r@.len() == (if room as int <= pending_upto(v0.state, a as int).len() {
                    room as int
                } else {
                    pending_upto(v0.state, a as int).len() as int
                }),
                forall|p: int|
                    0 <= p < r@.len() ==> #[trigger] r@[p] as int == pending_upto(
                        v0.state,
                        a as int,
                    )[p],
                forall|x: int| a <= x < njobs ==> self@.state[x] == v0.state[x],
                forall|x: int|
                    0 <= x < a && !r@.contains(x as usize) ==> self@.state[x] == v0.state[x],
                forall|p: int|
                    0 <= p < r@.len() ==> (#[trigger] r@[p]) < a && v0.state[
                        r@[p] as int
                    ] is Pending && self@.state[r@[p] as int] is Submitted,
            decreases njobs - a,
        {
            let ghost pu_next = pending_upto(v0.state, a as int + 1);
            let is_pending = match self.state[a] {
                JobState::Pending => true,
                _ => false,
            };
            if is_pending && r.len() < room {
                let ghost r0 = r@;
                let ghost st0 = self@.state;
                proof {
                    lemma_count_submitted_update(self@.state, a as int, JobState::Submitted);
                    lemma_count_submitted_bounds(self@.state);
                    lemma_pending_upto_props(v0.state, a as int);
                }
                self.state.set(a, JobState::Submitted);
                self.outstanding = self.outstanding + 1;
                r.push(a);
                proof {
                    assert(pu_next == pending_upto(v0.state, a as int) + seq![a as int]);
                    assert forall|p: int| 0 <= p < r@.len() implies #[trigger] r@[p] as int
                        == pu_next[p] by {
                        if p < r@.len() - 1 {
                            assert(r@[p] as int == pending_upto(v0.state, a as int)[p]);
                        } else {
                            assert(r@[p] == a);
                        }
                    }
                    assert forall|x: int|
                        0 <= x < a + 1 && !r@.contains(x as usize) implies self@.state[x]
                        == v0.state[x] by {
                        assert(r@[r@.len() - 1] == a as usize);
                        assert(r@.contains(a as usize));
                        if x != a {
                            assert(!r0.contains(x as usize)) by {
                                if r0.contains(x as usize) {
                                    let p = r0.index_of(x as usize);
                                    assert(r@[p] == x as usize);
                                    assert(false);
                                }
                            }
                            assert(st0[x] == v0.state[x]);
                        }
                    }
                }
            } else {
                proof {
                    if v0.state[a as int] is Pending {
                        assert(pu_next == pending_upto(v0.state, a as int) + seq![a as int]);
                        assert(r@.len() == room);
                    } else {
                        assert(pu_next =~= pending_upto(v0.state, a as int));
                    }
                    if r@.contains(a as usize) {
                        let p = choose|p: int| 0 <= p < r@.len() && r@[p] == a as usize;
                        assert(r@[p] < a);
                        assert(false);
                    }
                }
            }
            a = a + 1;
        }
        proof {
            assert(final(self)@ == (DrainView {
                state: final(self)@.state,
                outstanding: final(self)@.outstanding,
                ..v0
            }));
        }
        r
    }
}

/// Numbers one batch of jobs: job `t` gets id `start_index + t`, so the
/// batches of several point-building passes drained together stay disjoint
/// and each id indexes the shared result buffer directly.
pub fn assign_job_ids(njobs: usize, start_index: usize) -> (r: Vec<Job>)
    requires
        start_index + njobs <= usize::MAX,
    ensures
        r@.len() == njobs,
        forall|t: int| 0 <= t < njobs ==> (#[trigger] r@[t]).id == start_index + t,
        forall|a: int, b: int|
            0 <= a < njobs && 0 <= b < njobs && a != b ==> (#[trigger] r@[a].id) != (
            #[trigger] r@[b].id),
{
    let mut r: Vec<Job> = Vec::new();
    let mut t: usize = 0;
    while t < njobs
        invariant
            t <= njobs,
            start_index + njobs <= usize::MAX,
            r@.len() == t,
            forall|t2: int| 0 <= t2 < t ==> (#[trigger] r@[t2]).id == start_index + t2,
        decreases njobs - t,
    {
        r.push(Job { id: start_index + t });
        t = t + 1;
    }
    r
}

/// The payload of a found output (zero for a missing one; only read under
/// an `is Some` guard).
pub open spec fn some_val(o: Option<u64>) -> u64 {
    match o {
        Option::Some(x) => x,
        Option::None => 0u64,
    }
}

/// Job `a` is revived from a pre-existing output: the engine trusts
/// checkpoints, the job was never submitted, and its output is on disk.
pub open spec fn resume_hit(v: DrainView, found: Seq<Option<u64>>, a: int) -> bool {
    v.resume && v.state[a] is Pending && found[a] is Some
}

/// Some job writing to result slot `e` is revived.
pub open spec fn slot_hit(v: DrainView, found: Seq<Option<u64>>, e: int) -> bool {
    exists|a: int| 0 <= a < v.ids.len() && #[trigger] v.ids[a] == e && resume_hit(v, found, a)
}

/// Result slot `e` after trusting pre-existing outputs.
pub open spec fn resume_energy(v: DrainView, found: Seq<Option<u64>>, e: int) -> u64 {
    if slot_hit(v, found, e) {
        let a = choose|a: int|
            0 <= a < v.ids.len() && #[trigger] v.ids[a] == e && resume_hit(v, found, a);
        some_val(found[a])
    } else {
        v.energies[e]
    }
}

/// The whole engine state after trusting pre-existing outputs: every
/// revived job is done with its found energy recorded; every other job and
/// every other result slot is untouched.
pub open spec fn after_resume(v: DrainView, found: Seq<Option<u64>>) -> DrainView {
    DrainView {
        state: Seq::new(
            v.state.len(),
            |a: int|
                if resume_hit(v, found, a) {
                    JobState::Done
                } else {
                    v.state[a]
                },
        ),
        energies: Seq::new(v.energies.len(), |e: int| resume_energy(v, found, e)),
        ..v
    }
}

/// Pending states that were revived are no longer counted as submitted.
proof fn lemma_count_submitted_after_resume(s: Seq<JobState>, t: Seq<JobState>)
    requires
        s.len() == t.len(),
        forall|a: int| 0 <= a < s.len() ==> #[trigger] t[a] == s[a] || (s[a] is Pending && t[a] is Done),
    ensures
        count_submitted(t) == count_submitted(s),
    decreases s.len(),
{
    if s.len() > 0 {
        assert(s.drop_last().len() == t.drop_last().len());
        assert forall|a: int| 0 <= a < s.drop_last().len() implies #[trigger] t.drop_last()[a]
            == s.drop_last()[a] || (s.drop_last()[a] is Pending && t.drop_last()[a] is Done) by {
            assert(t[a] == s[a] || (s[a] is Pending && t[a] is Done));
        }
        lemma_count_submitted_after_resume(s.drop_last(), t.drop_last());
        assert(t[s.len() - 1] == s[s.len() - 1] || (s[s.len() - 1] is Pending && t[s.len()
            - 1] is Done));
    }
}

impl Drain {
    /// Applies the resume check once, before any submission: each job whose
    /// completed output the caller found on disk is recorded as done with
    /// that energy, and is never handed to the scheduler.  With checkpoint
    /// trust disabled, or for jobs without output, nothing changes and the
    /// job is submitted as usual.
    pub fn resume_scan(&mut self, found: &Vec<Option<u64>>)
        requires
            drain_wf(old(self)@),
            found@.len() == old(self)@.ids.len(),
        ensures
            drain_wf(final(self)@),
            final(self)@ == after_resume(old(self)@, found@),
    {
        let ghost v0 = self@;
        let ghost f = found@;
        let njobs = self.jobs.len();
        let mut a: usize = 0;
        while a < njobs
            invariant
                a <= njobs,
                njobs == self.jobs@.len(),
                drain_wf(v0),
                f.len() == v0.ids.len(),
                found@ == f,
                v0.state.len() == njobs,
                self@.ids == v0.ids,
                self@.retries == v0.retries,
                self@.energies.len() == v0.energies.len(),
                self@.state.len() == njobs,
                self@.chunk_size == v0.chunk_size,
                self@.job_limit == v0.job_limit,
                self@.max_retries == v0.max_retries,
                self@.resume == v0.resume,
                self@.outstanding == v0.outstanding,
                self.jobs@ == old(self).jobs@,
                forall|x: int| a <= x < njobs ==> #[trigger] self@.state[x] == v0.state[x],
                forall|x: int|
                    0 <= x < a ==> #[trigger] self@.state[x] == (if resume_hit(v0, f, x) {
                        JobState::Done
                    } else {
                        v0.state[x]
                    }),
                forall|x: int|
                    0 <= x < a && resume_hit(v0, f, x) ==> self@.energies[
                        #[trigger] v0.ids[x] as int
                    ] == some_val(f[x]),
                forall|e: int|
                    0 <= e < v0.energies.len() && !hit_before(v0, f, e, a as int)
                        ==> #[trigger] self@.energies[e] == v0.energies[e],
            decreases njobs - a,
        {
            let mut revive = false;
            let mut energy: u64 = 0;
            if self.cfg.resume {
                match self.state[a] {
                    JobState::Pending => {
                        match found[a] {
                            Option::Some(en) => {
                                revive = true;
                                energy = en;
                            },
                            Option::None => {},
                        }
                    },
                    _ => {},
                }
            }
            let ghost en0 = self@.energies;
            if revive {
                assert(resume_hit(v0, f, a as int));
                let id = self.jobs[a].id;
                assert(id == v0.ids[a as int]);
                assert((id as int) < self@.energies.len());
                self.state.set(a, JobState::Done);
                self.energies.set(id, energy);
                proof {
                    assert(self@.ids =~= v0.ids);
                    assert(self@.retries =~= v0.retries);
                    assert forall|e: int|
                        0 <= e < v0.energies.len() && !hit_before(v0, f, e, a as int + 1)
                            implies #[trigger] self@.energies[e] == v0.energies[e] by {
                        assert(v0.ids[a as int] == id);
                        if e == id {
                            assert(hit_before(v0, f, e, a as int + 1));
                        } else {
                            assert(!hit_before(v0, f, e, a as int)) by {
                                if hit_before(v0, f, e, a as int) {
                                    let x = choose|x: int|
                                        0 <= x < a && #[trigger] v0.ids[x] == e && resume_hit(
                                            v0,
                                            f,
                                            x,
                                        );
                                    assert(hit_before(v0, f, e, a as int + 1));
                                }
                            }
                        }
                    }
                    assert forall|x: int|
                        0 <= x < a + 1 && resume_hit(v0, f, x) implies self@.energies[
                        #[trigger] v0.ids[x] as int
                    ] == some_val(f[x]) by {
                        if x < a {
                            assert(v0.ids[x] != v0.ids[a as int]);
                            assert(en0[v0.ids[x] as int] == some_val(f[x]));
                        }
                    }
                }
            } else {
                proof {
                    assert(!resume_hit(v0, f, a as int));
                    assert forall|e: int|
                        0 <= e < v0.energies.len() && !hit_before(v0, f, e, a as int + 1)
                            implies #[trigger] self@.energies[e] == v0.energies[e] by {
                        assert(!hit_before(v0, f, e, a as int)) by {
                            if hit_before(v0, f, e, a as int) {
                                let x = choose|x: int|
                                    0 <= x < a && #[trigger] v0.ids[x] == e && resume_hit(v0, f, x);
                                assert(hit_before(v0, f, e, a as int + 1));
                            }
                        }
                    }
                }
            }
            a = a + 1;
        }
        proof {
            let w = after_resume(v0, f);
            assert(self@.state =~= w.state);
            assert forall|e: int| 0 <= e < v0.energies.len() implies self@.energies[e]
                == w.energies[e] by {
                if slot_hit(v0, f, e) {
                    let x = choose|x: int|
                        0 <= x < v0.ids.len() && #[trigger] v0.ids[x] == e && resume_hit(v0, f, x);
                    assert(self@.energies[v0.ids[x] as int] == some_val(f[x]));
                } else {
                    assert(!hit_before(v0, f, e, njobs as int)) by {
                        if hit_before(v0, f, e, njobs as int) {
                            let x = choose|x: int|
                                0 <= x < njobs && #[trigger] v0.ids[x] == e && resume_hit(v0, f, x);
                            assert(slot_hit(v0, f, e));
                        }
                    }
                }
            }
            assert(self@.energies =~= w.energies);
            lemma_count_submitted_after_resume(v0.state, self@.state);
        }
    }
}

/// Some job among the first `a` writing to slot `e` is revived.
pub open spec fn hit_before(v: DrainView, found: Seq<Option<u64>>, e: int, a: int) -> bool {
    exists|x: int| 0 <= x < a && #[trigger] v.ids[x] == e && resume_hit(v, found, x)
}

/// Trusting pre-existing outputs is idempotent: applying the resume check
/// to an already-resumed engine changes nothing — the energies are
/// reproduced exactly and no job changes state, so nothing is ever
/// re-submitted for an output that is already on disk.
pub proof fn lemma_resume_idempotent(v: DrainView, found: Seq<Option<u64>>)
    requires
        drain_wf(v),
        found.len() == v.ids.len(),
    ensures
        after_resume(after_resume(v, found), found) == after_resume(v, found),
{
    let w = after_resume(v, found);
    let u = after_resume(w, found);
    assert forall|a: int| 0 <= a < w.state.len() implies !resume_hit(w, found, a) by {
        if v.resume && found[a] is Some && v.state[a] is Pending {
            assert(w.state[a] is Done);
        }
    }
    assert(u.state =~= w.state);
    assert forall|e: int| 0 <= e < w.energies.len() implies u.energies[e] == w.energies[e] by {
        if slot_hit(w, found, e) {
            let x = choose|x: int|
                0 <= x < w.ids.len() && #[trigger] w.ids[x] == e && resume_hit(w, found, x);
            assert(!resume_hit(w, found, x));
            assert(false);
        }
    }
    assert(u.energies =~= w.energies);
}

/// A full checkpoint revives every job: afterwards each job is done with
/// its found energy, and no pending work is left to submit.
pub proof fn lemma_resume_complete(v: DrainView, found: Seq<Option<u64>>)
    requires
        drain_wf(v),
        found.len() == v.ids.len(),
        v.resume,
        forall|a: int| 0 <= a < v.state.len() ==> #[trigger] v.state[a] is Pending,
        forall|a: int| 0 <= a < found.len() ==> #[trigger] found[a] is Some,
    ensures
        forall|a: int|
            0 <= a < v.state.len() ==> #[trigger] after_resume(v, found).state[a] is Done,
        forall|a: int|
            0 <= a < v.ids.len() ==> after_resume(v, found).energies[#[trigger] v.ids[a] as int]
                == some_val(found[a]),
        pending_upto(after_resume(v, found).state, v.state.len() as int).len() == 0,
{
    let w = after_resume(v, found);
    assert forall|a: int| 0 <= a < v.ids.len() implies w.energies[#[trigger] v.ids[a] as int]
        == some_val(found[a]) by {
        let e = v.ids[a] as int;
        assert(resume_hit(v, found, a));
        assert(slot_hit(v, found, e));
        let x = choose|x: int|
            0 <= x < v.ids.len() && #[trigger] v.ids[x] == e && resume_hit(v, found, x);
        assert(x == a);
    }
    lemma_pending_upto_empty(w.state, v.state.len() as int);
}

/// A state sequence with no pending entries below `a` lists no pending
/// indexes.
proof fn lemma_pending_upto_empty(s: Seq<JobState>, a: int)
    requires
        forall|x: int| 0 <= x < a ==> !(#[trigger] s[x] is Pending),
    ensures
        pending_upto(s, a).len() == 0,
    decreases a,
{
    if a > 0 {
        lemma_pending_upto_empty(s, a - 1);
    }
}

/// Every job has reached a final state.
pub open spec fn all_settled(v: DrainView) -> bool {
    forall|a: int| 0 <= a < v.state.len() ==> (#[trigger] v.state[a] is Done || v.state[a] is Failed)
}

/// The ids of the failed jobs among the first `a`, in job order.
pub open spec fn failed_upto(v: DrainView, a: int) -> Seq<usize>
    decreases a,
{
    if a <= 0 {
        Seq::empty()
    } else {
        failed_upto(v, a - 1) + if v.state[a - 1] is Failed {
            seq![v.ids[a - 1]]
        } else {
            Seq::empty()
        }
    }
}

/// The failed list is empty exactly when no job failed.
pub proof fn lemma_failed_upto_empty(v: DrainView, a: int)
    ensures
        (failed_upto(v, a).len() == 0) <==> (forall|x: int|
            0 <= x < a ==> !(#[trigger] v.state[x] is Failed)),
    decreases a,
{
    if a > 0 {
        lemma_failed_upto_empty(v, a - 1);
    }
}

impl Drain {
    /// Whether the drain is over: nothing pending, nothing outstanding.
    pub fn is_finished(&self) -> (r: bool)
        ensures
            r == all_settled(self@),
    {
        let njobs = self.state.len();
        let mut a: usize = 0;
        while a < njobs
            invariant
                a <= njobs,
                njobs == self.state@.len(),
                forall|x: int|
                    0 <= x < a ==> (#[trigger] self@.state[x] is Done || self@.state[x] is Failed),
            decreases njobs - a,
        {
            match self.state[a] {
                JobState::Done => {},
                JobState::Failed => {},
                _ => {
                    return false;
                },
            }
            a = a + 1;
        }
        true
    }

    /// The ids of the jobs that exhausted their retries, in job order.
    pub fn failed_ids(&self) -> (r: Vec<usize>)
        requires
            drain_wf(self@),
        ensures
            r@ == failed_upto(self@, self@.state.len() as int),
    {
        let njobs = self.state.len();
        let mut r: Vec<usize> = Vec::new();
        let mut a: usize = 0;
        while a < njobs
            invariant
                a <= njobs,
                njobs == self.state@.len(),
                drain_wf(self@),
                r@ == failed_upto(self@, a as int),
            decreases njobs - a,
        {
            let is_failed = match self.state[a] {
                JobState::Failed => true,
                _ => false,
            };
            if is_failed {
                r.push(self.jobs[a].id);
                proof {
                    assert(r@ =~= failed_upto(self@, a as int) + seq![self@.ids[a as int]]);
                }
            }
            a = a + 1;
        }
        r
    }

    /// Ends a strict run (used for the optimizations every later stage
    /// depends on): the energies are returned only if every job completed;
    /// any failure hands back the failed ids instead.
    pub fn energize_result(self) -> (r: Result<Vec<u64>, Vec<usize>>)
        requires
            drain_wf(self@),
            all_settled(self@),
        ensures
            match r {
                Ok(en) => en@ == self@.energies && (forall|a: int|
                    0 <= a < self@.state.len() ==> #[trigger] self@.state[a] is Done),
                Err(f) => {
                    &&& f@ == failed_upto(self@, self@.state.len() as int)
                    &&& f@.len() >= 1
                    &&& exists|a: int| 0 <= a < self@.state.len() && #[trigger] self@.state[a] is Failed
                },
            },
    {
        let failed = self.failed_ids();
        proof {
            lemma_failed_upto_empty(self@, self@.state.len() as int);
        }
        if failed.len() == 0 {
            Ok(self.energies)
        } else {
            proof {
                assert(!(forall|x: int|
                    0 <= x < self@.state.len() ==> !(#[trigger] self@.state[x] is Failed)));
            }
            Err(failed)
        }
    }

    /// Ends a tolerant run: the energies filled so far and the failed ids.
    /// The caller must drop the failed positions from every parallel array.
    pub fn drain_result(self) -> (r: (Vec<u64>, Vec<usize>))
        requires
            drain_wf(self@),
            all_settled(self@),
        ensures
            r.0@ == self@.energies,
            r.1@ == failed_upto(self@, self@.state.len() as int),
    {
        let failed = self.failed_ids();
        (self.energies, failed)
    }
}

/// The original positions surviving a failed-index set, in increasing
/// order.
pub open spec fn kept_indices(len: int, failed: Seq<usize>) -> Seq<int>
    decreases len,
{
    if len <= 0 {
        Seq::empty()
    } else {
        kept_indices(len - 1, failed) + if failed.contains((len - 1) as usize) {
            Seq::empty()
        } else {
            seq![len - 1]
        }
    }
}

/// A sequence after dropping the failed positions.
pub open spec fn filtered<A>(s: Seq<A>, failed: Seq<usize>) -> Seq<A> {
    kept_indices(s.len() as int, failed).map_values(|i: int| s[i])
}

/// Every surviving position is in range, not failed, and the survivors
/// keep their original order; every non-failed position survives.
pub proof fn lemma_kept_indices_props(len: int, failed: Seq<usize>)
    ensures
        forall|k: int|
            0 <= k < kept_indices(len, failed).len() ==> 0 <= #[trigger] kept_indices(len, failed)[k]
                < len && !failed.contains(kept_indices(len, failed)[k] as usize),
        forall|k1: int, k2: int|
            0 <= k1 < k2 < kept_indices(len, failed).len() ==> #[trigger] kept_indices(
                len,
                failed,
            )[k1] < #[trigger] kept_indices(len, failed)[k2],
        forall|x: int|
            0 <= x < len && !failed.contains(x as usize) ==> kept_indices(len, failed).contains(x),
    decreases len,
{
    if len > 0 {
        lemma_kept_indices_props(len - 1, failed);
        let cur = kept_indices(len, failed);
        let prev = kept_indices(len - 1, failed);
        assert forall|k: int| 0 <= k < cur.len() implies 0 <= #[trigger] cur[k] < len
            && !failed.contains(cur[k] as usize) by {
            if k < prev.len() {
                assert(cur[k] == prev[k]);
            } else {
                assert(!failed.contains((len - 1) as usize));
                assert(cur[k] == len - 1);
            }
        }
        assert forall|k1: int, k2: int| 0 <= k1 < k2 < cur.len() implies #[trigger] cur[k1]
            < #[trigger] cur[k2] by {
            if k2 < prev.len() {
                assert(cur[k1] == prev[k1]);
                assert(cur[k2] == prev[k2]);
            } else {
                assert(cur[k2] == len - 1);
                assert(cur[k1] == prev[k1]);
                assert(prev[k1] < len - 1);
            }
        }
        assert forall|x: int|
            0 <= x < len && !failed.contains(x as usize) implies kept_indices(
            len,
            failed,
        ).contains(x) by {
            if x < len - 1 {
                assert(kept_indices(len - 1, failed).contains(x));
                let p = kept_indices(len - 1, failed).index_of(x);
                assert(kept_indices(len, failed)[p] == x);
            } else {
                assert(kept_indices(len, failed).last() == x);
            }
        }
    }
}

/// Decides membership of an index in the failed list.
fn contains_idx(xs: &[usize], x: usize) -> (r: bool)
    ensures
        r == xs@.contains(x),
{
    let nxs = xs.len();
    let mut p: usize = 0;
    while p < nxs
        invariant
            p <= nxs,
            nxs == xs@.len(),
            forall|p2: int| 0 <= p2 < p ==> #[trigger] xs@[p2] != x,
        decreases nxs - p,
    {
        if xs[p] == x {
            assert(xs@.contains(x));
            return true;
        }
        p = p + 1;
    }
    false
}

/// Drops from `res` every position named in `failed_indices`, keeping the
/// survivors in order.  Callers filtering one failed set out of several
/// parallel arrays keep them aligned; `lemma_filter_alignment` states that.
pub fn filter_failed<T>(res: Vec<T>, failed_indices: &[usize]) -> (r: Vec<T>)
    ensures
        r@ == filtered(res@, failed_indices@),
{
    let ghost orig = res@;
    let ghost f = failed_indices@;
    let mut res = res;
    let len = res.len();
    let mut out: Vec<T> = Vec::new();
    let mut i: usize = 0;
    while i < len
        invariant
            i <= len,
            len == orig.len(),
            res@ == orig.skip(i as int),
            f == failed_indices@,
            out@.len() == kept_indices(i as int, f).len(),
            forall|k: int|
                0 <= k < out@.len() ==> 0 <= #[trigger] kept_indices(i as int, f)[k] < i,
            forall|k: int|
                0 <= k < out@.len() ==> #[trigger] out@[k] == orig[kept_indices(i as int, f)[k]],
        decreases len - i,
    {
        proof {
            lemma_kept_indices_props(i as int, f);
            lemma_kept_indices_props(i as int + 1, f);
        }
        let x = res.remove(0);
        proof {
            assert(orig.skip(i as int)[0] == orig[i as int]);
            assert(res@ =~= orig.skip(i as int + 1));
        }
        if !contains_idx(failed_indices, i) {
            out.push(x);
            proof {
                assert(kept_indices(i as int + 1, f) =~= kept_indices(i as int, f) + seq![
                    i as int,
                ]);
            }
        } else {
            proof {
                assert(kept_indices(i as int + 1, f) =~= kept_indices(i as int, f));
            }
        }
        i = i + 1;
    }
    proof {
        lemma_kept_indices_props(len as int, f);
        assert(out@ =~= filtered(orig, f));
    }
    out
}

/// Filtering a failed-index set preserves alignment: when two equal-length
/// parallel arrays are filtered with the same failed set, position `k` of
/// both filtered arrays still describes one original position `orig`, which
/// survived the filter.
pub proof fn lemma_filter_alignment<A, B>(xs: Seq<A>, ys: Seq<B>, failed: Seq<usize>, k: int)
    requires
        xs.len() == ys.len(),
        0 <= k < filtered(xs, failed).len(),
    ensures
        filtered(xs, failed).len() == filtered(ys, failed).len(),
        ({
            let orig = kept_indices(xs.len() as int, failed)[k];
            &&& 0 <= orig < xs.len()
            &&& !failed.contains(orig as usize)
            &&& filtered(xs, failed)[k] == xs[orig]
            &&& filtered(ys, failed)[k] == ys[orig]
        }),
{
    lemma_kept_indices_props(xs.len() as int, failed);
}

/// A sequence of pending states has no submitted entries.
proof fn lemma_count_all_pending(s: Seq<JobState>)
    requires
        forall|a: int| 0 <= a < s.len() ==> #[trigger] s[a] is Pending,
    ensures
        count_submitted(s) == 0,
    decreases s.len(),
{
    if s.len() > 0 {
        lemma_count_all_pending(s.drop_last());
    }
}

} // verus!
