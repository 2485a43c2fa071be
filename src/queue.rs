//! The scheduling state: which jobs wait, what state each job is in, and
//! which job a worker may start next.
//!
//! The queue is a plain state machine; callers that share it between threads
//! hold it under one lock and wait on a condition variable whenever
//! `fetch` answers `FetchStep::Wait`.
use crate::job::{job_views, reaches, same_job, share, InnerJobRealization, JobRealization, JobView};
use vstd::prelude::*;

verus! {

#[derive(PartialEq, Eq, Clone, Copy, Debug, Structural)]
pub enum JobState {
    Ready,
    Failed,
    Running,
    Finished,
    Skipped,
}

pub open spec fn is_terminal(s: JobState) -> bool {
    s == JobState::Finished || s == JobState::Skipped || s == JobState::Failed
}

pub open spec fn is_success(s: JobState) -> bool {
    s == JobState::Finished || s == JobState::Skipped
}

/// What a worker is to do after asking the queue for work.
pub enum FetchStep {
    /// Run this job; the queue has marked it `Running`.
    Run(JobRealization),
    /// Nothing can start now; ask again after the queue changes.
    Wait,
    /// No job will start any more.
    Stop,
}

pub struct Queue {
    jobs: Vec<JobRealization>,
    states: Vec<(JobRealization, JobState)>,
    done: bool,
    failed: bool,
}

/// The state recorded last for job `v` in `entries`.
pub open spec fn state_in(entries: Seq<(JobRealization, JobState)>, v: JobView) -> Option<JobState>
    decreases entries.len(),
{
    if entries.len() == 0 {
        None
    } else if (*entries.last().0)@ == v {
        Some(entries.last().1)
    } else {
        state_in(entries.drop_last(), v)
    }
}


/// `s` without the occurrences of `x`.
pub open spec fn without(s: Seq<JobView>, x: JobView) -> Seq<JobView>
    decreases s.len(),
{
    if s.len() == 0 {
        s
    } else if s.last() == x {
        without(s.drop_last(), x)
    } else {
        without(s.drop_last(), x).push(s.last())
    }
}

proof fn lemma_state_push(entries: Seq<(JobRealization, JobState)>, j: JobRealization, st: JobState)
    ensures
        forall|v: JobView| #[trigger]
            state_in(entries.push((j, st)), v) == if v == (*j)@ {
                Some(st)
            } else {
                state_in(entries, v)
            },
{
    assert(entries.push((j, st)).drop_last() =~= entries);
}

proof fn lemma_without(s: Seq<JobView>, x: JobView)
    ensures
        forall|i: int| 0 <= i < without(s, x).len() ==> #[trigger] without(s, x)[i] != x && s.contains(without(s, x)[i]),
        forall|i: int| 0 <= i < s.len() && #[trigger] s[i] != x ==> without(s, x).contains(s[i]),
        !s.contains(x) ==> without(s, x) == s,
    decreases s.len(),
{
    if s.len() > 0 {
        let p = s.drop_last();
        lemma_without(p, x);
        assert forall|i: int| 0 <= i < without(s, x).len() implies #[trigger] without(s, x)[i] != x && s.contains(without(s, x)[i]) by {
            if i < without(p, x).len() {
                assert(without(s, x)[i] == without(p, x)[i]);
                let k = choose|k: int| 0 <= k < p.len() && p[k] == without(p, x)[i];
                assert(s[k] == p[k]);
            } else {
                assert(s[s.len() - 1] == s.last());
            }
        }
        assert forall|i: int| 0 <= i < s.len() && #[trigger] s[i] != x implies without(s, x).contains(s[i]) by {
            if i < p.len() {
                assert(p[i] == s[i]);
                let k = choose|k: int| 0 <= k < without(p, x).len() && without(p, x)[k] == p[i];
                assert(without(s, x)[k] == without(p, x)[k]);
            } else {
                assert(without(s, x).last() == s.last());
            }
        }
        if !s.contains(x) {
            assert(!p.contains(x)) by {
                if p.contains(x) {
                    let k = choose|k: int| 0 <= k < p.len() && p[k] == x;
                    assert(s[k] == x);
                }
            }
            assert(s.last() != x);
            assert(p.push(s.last()) =~= s);
        }
    }
}

/// From `before` to `after` only the state of `v` changed, from `from` to `to`.
pub open spec fn moved(before: Queue, after: Queue, v: JobView, from: JobState, to: JobState) -> bool {
    &&& before.state_of(v) == Some(from)
    &&& after.state_of(v) == Some(to)
    &&& forall|w: JobView| w != v ==> #[trigger] after.state_of(w) == before.state_of(w)
}

/// From `before` to `after` no state changed.
pub open spec fn same_states(before: Queue, after: Queue) -> bool {
    forall|w: JobView| #[trigger] after.state_of(w) == before.state_of(w)
}

/// `after` is `before` with `job` enqueued: unchanged where the same job is
/// pending already, else with `job` pending last and `Ready`.
pub open spec fn enqueued(before: Queue, job: JobView, after: Queue) -> bool {
    if before.pending().contains(job) {
        &&& after.pending() == before.pending()
        &&& forall|v: JobView| #[trigger] after.state_of(v) == before.state_of(v)
    } else {
        &&& after.pending() == before.pending().push(job)
        &&& forall|v: JobView| #[trigger]
            after.state_of(v) == if v == job {
                Some(JobState::Ready)
            } else {
                before.state_of(v)
            }
    }
}

impl Queue {
    /// The jobs not yet handed out, in order.
    pub closed spec fn pending(&self) -> Seq<JobView> {
        job_views(self.jobs@)
    }

    /// The state of job `v`, if it was ever enqueued.
    pub closed spec fn state_of(&self, v: JobView) -> Option<JobState> {
        state_in(self.states@, v)
    }

    /// No more jobs will be enqueued.
    pub closed spec fn is_done(&self) -> bool {
        self.done
    }

    /// Some job has failed.
    pub closed spec fn is_failed(&self) -> bool {
        self.failed
    }

    pub open spec fn completed(&self, v: JobView) -> bool {
        self.state_of(v) matches Some(s) && is_terminal(s)
    }

    pub open spec fn succeeded(&self, v: JobView) -> bool {
        self.state_of(v) matches Some(s) && is_success(s)
    }

    /// Every direct dependency of `v` has completed successfully.
    pub open spec fn deps_satisfied(&self, v: JobView) -> bool {
        forall|i: int| 0 <= i < v.dependencies.len() ==> self.succeeded(#[trigger] v.dependencies[i])
    }

    /// `v` is running or may still run: it has not completed, and each of its
    /// dependencies has succeeded or is alive itself.
    pub open spec fn alive(&self, v: JobView) -> bool
        decreases v,
    {
        !self.completed(v) && forall|i: int|
            0 <= i < v.dependencies.len() ==> (self.succeeded(#[trigger] v.dependencies[i])
                || self.alive(v.dependencies[i]))
    }

    pub open spec fn has_alive(&self) -> bool {
        exists|k: int| 0 <= k < self.pending().len() && self.alive(#[trigger] self.pending()[k])
    }

    /// The `k`-th pending job may start now.
    pub open spec fn startable(&self, k: int) -> bool {
        &&& 0 <= k < self.pending().len()
        &&& self.state_of(self.pending()[k]) == Some(JobState::Ready)
        &&& self.deps_satisfied(self.pending()[k])
    }

    /// The `k`-th pending job is the last one that may start now.
    pub open spec fn chosen(&self, k: int) -> bool {
        &&& self.startable(k)
        &&& forall|j: int| k < j < self.pending().len() ==> !#[trigger] self.startable(j)
    }

    /// The queue's invariant: each pending job is `Ready`, each `Ready` job
    /// is pending, and a `Failed` job has set the failure flag.
    pub open spec fn wf(&self) -> bool {
        &&& forall|k: int|
            0 <= k < self.pending().len() ==> self.state_of(#[trigger] self.pending()[k]) == Some(
                JobState::Ready,
            )
        &&& forall|v: JobView| #![trigger self.state_of(v)]
            self.state_of(v) == Some(JobState::Ready) ==> self.pending().contains(v)
        &&& (exists|v: JobView| #[trigger] self.state_of(v) == Some(JobState::Failed)) ==> self.is_failed()
    }

    /// Every job that has started (and is running or has succeeded) found its
    /// direct dependencies completed successfully.
    pub open spec fn started_after_deps(&self) -> bool {
        forall|v: JobView| #![trigger self.state_of(v)]
            self.state_of(v) matches Some(s) && (s == JobState::Running || is_success(s))
                ==> self.deps_satisfied(v)
    }

    pub fn new() -> (r: Queue)
        ensures
            r.wf(),
            r.started_after_deps(),
            r.pending() == Seq::<JobView>::empty(),
            forall|v: JobView| r.state_of(v) is None,
            !r.is_done(),
            !r.is_failed(),
    {
        let q = Queue { jobs: Vec::new(), states: Vec::new(), done: false, failed: false };
        assert(q.pending() =~= Seq::<JobView>::empty());
        q
    }

    fn find_state(&self, job: &InnerJobRealization) -> (r: Option<JobState>)
        ensures
            r == self.state_of(job@),
    {
        let mut i: usize = self.states.len();
        assert(self.states@.take(i as int) =~= self.states@);
        while i > 0
            invariant
                i <= self.states.len(),
                state_in(self.states@, job@) == state_in(self.states@.take(i as int), job@),
            decreases i,
        {
            let ghost pre = self.states@.take(i as int);
            assert(pre.drop_last() =~= self.states@.take(i - 1));
            assert(pre.last() == self.states@[i - 1]);
            if same_job(&self.states[i - 1].0, job) {
                return Some(self.states[i - 1].1);
            }
            i -= 1;
        }
        None
    }

    fn is_completed(&self, job: &InnerJobRealization) -> (r: bool)
        ensures
            r == self.completed(job@),
    {
        match self.find_state(job) {
            Some(state) => state == JobState::Finished || state == JobState::Skipped || state
                == JobState::Failed,
            None => false,
        }
    }

    fn is_completed_successfully(&self, job: &InnerJobRealization) -> (r: bool)
        ensures
            r == self.succeeded(job@),
    {
        match self.find_state(job) {
            Some(state) => state == JobState::Finished || state == JobState::Skipped,
            None => false,
        }
    }

    fn dependencies_satisfied(&self, job: &InnerJobRealization) -> (r: bool)
        ensures
            r == self.deps_satisfied(job@),
    {
        let n = job.dependency_count();
        let mut i: usize = 0;
        while i < n
            invariant
                i <= n == job@.dependencies.len(),
                forall|k: int| 0 <= k < i ==> self.succeeded(#[trigger] job@.dependencies[k]),
            decreases n - i,
        {
            if !self.is_completed_successfully(job.dependency(i)) {
                return false;
            }
            i += 1;
        }
        true
    }

    /// Whether the job is running or may still run.
    fn task_alive(&self, job: &InnerJobRealization) -> (r: bool)
        ensures
            r == self.alive(job@),
        decreases job@,
    {
        if self.is_completed(job) {
            return false;
        }
        let n = job.dependency_count();
        let mut i: usize = 0;
        while i < n
            invariant
                i <= n == job@.dependencies.len(),
                !self.completed(job@),
                forall|k: int|
                    0 <= k < i ==> (self.succeeded(#[trigger] job@.dependencies[k]) || self.alive(
                        job@.dependencies[k],
                    )),
            decreases n - i,
        {
            let dep = job.dependency(i);
            proof {
                assert(decreases_to!(job@ => job@.dependencies[i as int]));
            }
            if !self.task_alive(dep) && !self.is_completed_successfully(dep) {
                return false;
            }
            i += 1;
        }
        true
    }

    fn has_alive_tasks(&self) -> (r: bool)
        ensures
            r == self.has_alive(),
    {
        let mut i: usize = 0;
        while i < self.jobs.len()
            invariant
                i <= self.jobs.len(),
                forall|k: int| 0 <= k < i ==> !self.alive(#[trigger] self.pending()[k]),
            decreases self.jobs.len() - i,
        {
            assert(self.pending()[i as int] == (*self.jobs@[i as int])@);
            if self.task_alive(&self.jobs[i]) {
                return true;
            }
            i += 1;
        }
        false
    }

    /// Removes every pending copy of `job`.
    fn drop_pending(&mut self, job: &InnerJobRealization)
        ensures
            final(self).pending() == without(old(self).pending(), job@),
            final(self).states == old(self).states,
            final(self).done == old(self).done,
            final(self).failed == old(self).failed,
    {
        let mut kept: Vec<JobRealization> = Vec::new();
        let mut m: usize = 0;
        while m < self.jobs.len()
            invariant
                m <= self.jobs.len(),
                job_views(kept@) == without(job_views(self.jobs@).take(m as int), job@),
            decreases self.jobs.len() - m,
        {
            let ghost pre = job_views(self.jobs@).take(m as int);
            let ghost next = job_views(self.jobs@).take(m + 1);
            assert(next.drop_last() =~= pre);
            assert(next.last() == (*self.jobs@[m as int])@);
            let ghost before = kept@;
            if !same_job(&self.jobs[m], job) {
                kept.push(share(&self.jobs[m]));
                assert(job_views(kept@) =~= job_views(before).push((*self.jobs@[m as int])@));
            }
            m += 1;
        }
        assert(job_views(self.jobs@).take(m as int) =~= job_views(self.jobs@));
        self.jobs = kept;
    }

    /// The index of the last pending job that may start now.
    fn last_startable(&self) -> (r: Option<usize>)
        ensures
            match r {
                Some(k) => self.chosen(k as int),
                None => forall|j: int| 0 <= j < self.pending().len() ==> !#[trigger] self.startable(j),
            },
    {
        let mut found: Option<usize> = None;
        let mut i: usize = 0;
        while i < self.jobs.len()
            invariant
                i <= self.jobs.len(),
                found matches Some(k) ==> k < i && self.startable(k as int) && forall|j: int|
                    k < j < i ==> !#[trigger] self.startable(j),
                found is None ==> forall|j: int| 0 <= j < i ==> !#[trigger] self.startable(j),
            decreases self.jobs.len() - i,
        {
            let job = &self.jobs[i];
            assert(self.pending()[i as int] == (**job)@);
            if self.find_state(job) == Some(JobState::Ready) && self.dependencies_satisfied(job) {
                found = Some(i);
            }
            i += 1;
        }
        found
    }

    /// Hands out the last pending job that is `Ready` and whose dependencies
    /// have all succeeded, marking it `Running`.
    fn get_ready(&mut self) -> (r: Option<JobRealization>)
        requires
            old(self).wf(),
            old(self).started_after_deps(),
        ensures
            final(self).wf(),
            final(self).started_after_deps(),
            final(self).is_done() == old(self).is_done(),
            final(self).is_failed() == old(self).is_failed(),
            match r {
                Some(j) => {
                    &&& exists|k: int| old(self).chosen(k) && old(self).pending()[k] == (*j)@
                    &&& final(self).pending() == without(old(self).pending(), (*j)@)
                    &&& forall|v: JobView| #[trigger]
                        final(self).state_of(v) == if v == (*j)@ {
                            Some(JobState::Running)
                        } else {
                            old(self).state_of(v)
                        }
                },
                None => {
                    &&& forall|k: int| 0 <= k < old(self).pending().len() ==> !#[trigger] old(self).startable(k)
                    &&& final(self).pending() == old(self).pending()
                    &&& forall|v: JobView| #[trigger] final(self).state_of(v) == old(self).state_of(v)
                },
            },
    {
        let found = self.last_startable();
        match found {
            None => None,
            Some(k) => {
                let job = share(&self.jobs[k]);
                assert(self.pending()[k as int] == (*job)@);
                let ghost old_self = *self;
                self.states.push((share(&job), JobState::Running));
                proof {
                    lemma_state_push(old_self.states@, job, JobState::Running);
                }
                self.drop_pending(&job);
                proof {
                    lemma_without(old_self.pending(), (*job)@);
                    let c = (*job)@;
                    assert(old_self.chosen(k as int));
                    assert forall|v: JobView| #![trigger self.state_of(v)]
                        self.state_of(v) == Some(JobState::Ready) implies self.pending().contains(v) by {
                        assert(v != c);
                        assert(old_self.state_of(v) == Some(JobState::Ready));
                        let m = choose|m: int| 0 <= m < old_self.pending().len() && old_self.pending()[m] == v;
                        assert(old_self.pending()[m] != c);
                    }
                    if exists|v: JobView| #[trigger] self.state_of(v) == Some(JobState::Failed) {
                        let v = choose|v: JobView| #[trigger] self.state_of(v) == Some(JobState::Failed);
                        assert(old_self.state_of(v) == Some(JobState::Failed));
                    }
                    assert forall|m: int| 0 <= m < self.pending().len() implies self.state_of(
                        #[trigger] self.pending()[m],
                    ) == Some(JobState::Ready) by {
                        let w = self.pending()[m];
                        assert(w != c);
                        let n = choose|n: int| 0 <= n < old_self.pending().len() && old_self.pending()[n] == w;
                        assert(old_self.state_of(old_self.pending()[n]) == Some(JobState::Ready));
                    }
                    assert forall|v: JobView| #![trigger self.state_of(v)]
                        self.state_of(v) matches Some(s) && (s == JobState::Running || is_success(s))
                            implies self.deps_satisfied(v) by {
                        if v != c {
                            assert(old_self.state_of(v) == self.state_of(v));
                            assert(old_self.deps_satisfied(v));
                        }
                        assert forall|i: int| 0 <= i < v.dependencies.len() implies self.succeeded(
                            #[trigger] v.dependencies[i],
                        ) by {
                            assert(old_self.succeeded(v.dependencies[i]));
                            assert(v.dependencies[i] != c);
                        }
                    }
                }
                Some(job)
            },
        }
    }

    fn is_pending(&self, job: &InnerJobRealization) -> (r: bool)
        ensures
            r == self.pending().contains(job@),
    {
        let mut i: usize = 0;
        while i < self.jobs.len()
            invariant
                i <= self.jobs.len(),
                forall|k: int| 0 <= k < i ==> self.pending()[k] != job@,
            decreases self.jobs.len() - i,
        {
            if same_job(&self.jobs[i], job) {
                assert(self.pending()[i as int] == job@);
                return true;
            }
            i += 1;
        }
        false
    }

    /// Adds `job` to the pending jobs as `Ready`, unless the same job is
    /// pending already.
    pub fn enqueue(&mut self, job: JobRealization)
        requires
            old(self).wf(),
        ensures
            final(self).wf(),
            final(self).is_done() == old(self).is_done(),
            final(self).is_failed() == old(self).is_failed(),
            enqueued(*old(self), (*job)@, *final(self)),
            old(self).started_after_deps() && !old(self).succeeded((*job)@)
                ==> final(self).started_after_deps(),
    {
        if self.is_pending(&job) {
            return;
        }
        let ghost old_self = *self;
        assert(!old_self.pending().contains((*job)@));
        self.jobs.push(share(&job));
        self.states.push((job, JobState::Ready));
        proof {
            lemma_state_push(old_self.states@, job, JobState::Ready);
            let c = (*job)@;
            assert(self.pending() =~= old_self.pending().push(c));
            assert forall|m: int| 0 <= m < self.pending().len() implies self.state_of(
                #[trigger] self.pending()[m],
            ) == Some(JobState::Ready) by {
                if m < old_self.pending().len() {
                    assert(self.pending()[m] == old_self.pending()[m]);
                    assert(old_self.pending()[m] != c);
                }
            }
            assert forall|v: JobView| #![trigger self.state_of(v)]
                self.state_of(v) == Some(JobState::Ready) implies self.pending().contains(v) by {
                if v != c {
                    assert(old_self.state_of(v) == Some(JobState::Ready));
                    let m = choose|m: int| 0 <= m < old_self.pending().len() && old_self.pending()[m] == v;
                    assert(self.pending()[m] == v);
                } else {
                    assert(self.pending()[self.pending().len() - 1] == c);
                }
            }
            if exists|v: JobView| #[trigger] self.state_of(v) == Some(JobState::Failed) {
                let v = choose|v: JobView| #[trigger] self.state_of(v) == Some(JobState::Failed);
                assert(old_self.state_of(v) == Some(JobState::Failed));
            }
            if old_self.started_after_deps() && !old_self.succeeded(c) {
                assert forall|v: JobView| #![trigger self.state_of(v)]
                    self.state_of(v) matches Some(s) && (s == JobState::Running || is_success(s))
                        implies self.deps_satisfied(v) by {
                    assert(v != c);
                    assert(old_self.state_of(v) == self.state_of(v));
                    assert forall|i: int| 0 <= i < v.dependencies.len() implies self.succeeded(
                        #[trigger] v.dependencies[i],
                    ) by {
                        assert(old_self.succeeded(v.dependencies[i]));
                    }
                }
            }
        }
    }

    /// One step of a worker's request for work: `Stop` once a job has failed
    /// or once enqueueing is over and no pending job can run any more;
    /// otherwise the job that `get_ready` hands out, or `Wait`.
    pub fn fetch(&mut self) -> (r: FetchStep)
        requires
            old(self).wf(),
            old(self).started_after_deps(),
        ensures
            final(self).wf(),
            final(self).started_after_deps(),
            final(self).is_done() == old(self).is_done(),
            final(self).is_failed() == old(self).is_failed(),
            r is Stop <==> (old(self).is_failed() || (old(self).is_done() && !old(self).has_alive())),
            !(r is Run) ==> final(self).pending() == old(self).pending() && same_states(
                *old(self),
                *final(self),
            ),
            r is Wait ==> forall|k: int|
                0 <= k < old(self).pending().len() ==> !#[trigger] old(self).startable(k),
            r matches FetchStep::Run(j) ==> {
                &&& exists|k: int| old(self).chosen(k) && old(self).pending()[k] == (*j)@
                &&& final(self).pending() == without(old(self).pending(), (*j)@)
                &&& moved(*old(self), *final(self), (*j)@, JobState::Ready, JobState::Running)
                &&& forall|d: JobView| reaches((*j)@, d) ==> #[trigger] final(self).succeeded(d)
            },
    {
        if (self.done && !self.has_alive_tasks()) || self.failed {
            return FetchStep::Stop;
        }
        match self.get_ready() {
            Some(job) => {
                proof {
                    lemma_started_deps_succeeded(self, (*job)@);
                }
                FetchStep::Run(job)
            },
            None => FetchStep::Wait,
        }
    }

    /// Records the outcome of a job that was running; a failure sets the
    /// failure flag.
    pub fn finished(&mut self, job: JobRealization, state: JobState)
        requires
            old(self).wf(),
            old(self).started_after_deps(),
            old(self).state_of((*job)@) == Some(JobState::Running),
            is_terminal(state),
        ensures
            final(self).wf(),
            final(self).started_after_deps(),
            final(self).is_done() == old(self).is_done(),
            final(self).is_failed() == (old(self).is_failed() || state == JobState::Failed),
            final(self).pending() == old(self).pending(),
            moved(*old(self), *final(self), (*job)@, JobState::Running, state),
    {
        let ghost old_self = *self;
        let ghost c = (*job)@;
        self.states.push((job, state));
        if state == JobState::Failed {
            self.failed = true;
        }
        proof {
            lemma_state_push(old_self.states@, job, state);
            assert(self.pending() == old_self.pending());
            assert forall|m: int| 0 <= m < self.pending().len() implies self.state_of(
                #[trigger] self.pending()[m],
            ) == Some(JobState::Ready) by {
                assert(old_self.state_of(old_self.pending()[m]) == Some(JobState::Ready));
            }
            assert forall|v: JobView| #![trigger self.state_of(v)]
                self.state_of(v) == Some(JobState::Ready) implies self.pending().contains(v) by {
                assert(old_self.state_of(v) == Some(JobState::Ready));
            }
            if exists|v: JobView| #[trigger] self.state_of(v) == Some(JobState::Failed) {
                let v = choose|v: JobView| #[trigger] self.state_of(v) == Some(JobState::Failed);
                if v != c {
                    assert(old_self.state_of(v) == Some(JobState::Failed));
                }
            }
            assert forall|v: JobView| #![trigger self.state_of(v)]
                self.state_of(v) matches Some(s) && (s == JobState::Running || is_success(s))
                    implies self.deps_satisfied(v) by {
                assert(old_self.state_of(c) == Some(JobState::Running));
                if v != c {
                    assert(old_self.state_of(v) == self.state_of(v));
                }
                assert(old_self.deps_satisfied(v));
                assert forall|i: int| 0 <= i < v.dependencies.len() implies self.succeeded(
                    #[trigger] v.dependencies[i],
                ) by {
                    assert(old_self.succeeded(v.dependencies[i]));
                }
            }
        }
    }

    /// Declares that no more jobs will be enqueued.
    pub fn done(&mut self)
        ensures
            final(self).is_done(),
            final(self).is_failed() == old(self).is_failed(),
            final(self).pending() == old(self).pending(),
            same_states(*old(self), *final(self)),
            old(self).wf() ==> final(self).wf(),
            old(self).started_after_deps() ==> final(self).started_after_deps(),
    {
        let ghost old_self = *self;
        self.done = true;
        proof {
            lemma_transfer(&old_self, self);
        }
    }

    /// The number of pending jobs.
    pub fn len(&self) -> (r: usize)
        ensures
            r == self.pending().len(),
    {
        self.jobs.len()
    }

    pub fn has_failed(&self) -> (r: bool)
        ensures
            r == self.is_failed(),
    {
        self.failed
    }

    /// Whether some pending job is interactive.
    pub fn has_interactive(&self) -> (r: bool)
        ensures
            r == exists|k: int| 0 <= k < self.pending().len() && (#[trigger] self.pending()[k]).interactive,
    {
        let mut i: usize = 0;
        while i < self.jobs.len()
            invariant
                i <= self.jobs.len(),
                forall|k: int| 0 <= k < i ==> !(#[trigger] self.pending()[k]).interactive,
            decreases self.jobs.len() - i,
        {
            assert(self.pending()[i as int] == (*self.jobs@[i as int])@);
            if self.jobs[i].is_interactive() {
                return true;
            }
            i += 1;
        }
        false
    }

    /// The state of `job`, if it was ever enqueued.
    pub fn state(&self, job: &InnerJobRealization) -> (r: Option<JobState>)
        ensures
            r == self.state_of(job@),
    {
        self.find_state(job)
    }
} // impl Queue

/// The invariants carry over to a queue with the same pending jobs, states
/// and failure flag.
proof fn lemma_transfer(a: &Queue, b: &Queue)
    requires
        a.pending() == b.pending(),
        forall|v: JobView| #[trigger] a.state_of(v) == b.state_of(v),
        a.is_failed() == b.is_failed(),
    ensures
        a.wf() ==> b.wf(),
        a.started_after_deps() ==> b.started_after_deps(),
{
    if a.wf() {
        assert forall|m: int| 0 <= m < b.pending().len() implies b.state_of(
            #[trigger] b.pending()[m],
        ) == Some(JobState::Ready) by {
            assert(a.state_of(a.pending()[m]) == Some(JobState::Ready));
        }
        assert forall|v: JobView| #![trigger b.state_of(v)]
            b.state_of(v) == Some(JobState::Ready) implies b.pending().contains(v) by {
            assert(a.state_of(v) == Some(JobState::Ready));
        }
        if exists|v: JobView| #[trigger] b.state_of(v) == Some(JobState::Failed) {
            let v = choose|v: JobView| #[trigger] b.state_of(v) == Some(JobState::Failed);
            assert(a.state_of(v) == Some(JobState::Failed));
        }
    }
    if a.started_after_deps() {
        assert forall|v: JobView| #![trigger b.state_of(v)]
            b.state_of(v) matches Some(s) && (s == JobState::Running || is_success(s))
                implies b.deps_satisfied(v) by {
            assert(a.state_of(v) == b.state_of(v));
            assert(a.deps_satisfied(v));
            assert forall|i: int| 0 <= i < v.dependencies.len() implies b.succeeded(
                #[trigger] v.dependencies[i],
            ) by {
                assert(a.succeeded(v.dependencies[i]));
            }
        }
    }
}

/// A job that has started, and is running or has succeeded, has every
/// dependency, direct or not, completed successfully.
pub proof fn lemma_started_deps_succeeded(q: &Queue, v: JobView)
    requires
        q.started_after_deps(),
        q.state_of(v) matches Some(s) && (s == JobState::Running || is_success(s)),
    ensures
        forall|d: JobView| reaches(v, d) ==> #[trigger] q.succeeded(d),
    decreases v,
{
    assert(q.deps_satisfied(v));
    assert forall|d: JobView| reaches(v, d) implies #[trigger] q.succeeded(d) by {
        let i = choose|i: int|
            0 <= i < v.dependencies.len() && (#[trigger] v.dependencies[i] == d || reaches(
                v.dependencies[i],
                d,
            ));
        let e = v.dependencies[i];
        assert(q.succeeded(e));
        if e != d {
            lemma_started_deps_succeeded(q, e);
        }
    }
}

/// Without a failed job, every job that has not completed is alive.
proof fn lemma_unfailed_alive(q: &Queue, v: JobView)
    requires
        forall|w: JobView| #[trigger] q.state_of(w) != Some(JobState::Failed),
        !q.completed(v),
    ensures
        q.alive(v),
    decreases v,
{
    assert forall|i: int| 0 <= i < v.dependencies.len() implies (q.succeeded(
        #[trigger] v.dependencies[i],
    ) || q.alive(v.dependencies[i])) by {
        let d = v.dependencies[i];
        assert(q.state_of(d) != Some(JobState::Failed));
        if !q.completed(d) {
            lemma_unfailed_alive(q, d);
        }
    }
}

/// Once enqueueing is over, no job has failed and no pending job can run any
/// more, the queue is drained: nothing is pending, and every job ever
/// enqueued is still running or has completed successfully.
pub proof fn lemma_drained(q: &Queue)
    requires
        q.wf(),
        q.is_done(),
        !q.is_failed(),
        !q.has_alive(),
    ensures
        q.pending().len() == 0,
        forall|v: JobView| #[trigger] q.state_of(v) matches Some(s) ==> s == JobState::Running || is_success(s),
{
    assert(forall|w: JobView| #[trigger] q.state_of(w) != Some(JobState::Failed));
    if q.pending().len() > 0 {
        let v = q.pending()[0];
        assert(q.state_of(v) == Some(JobState::Ready));
        lemma_unfailed_alive(q, v);
        assert(q.has_alive());
    }
    assert forall|v: JobView| #[trigger] q.state_of(v) is Some implies q.state_of(v)->0 == JobState::Running
        || is_success(q.state_of(v)->0) by {
        if q.state_of(v) == Some(JobState::Ready) {
            assert(q.pending().contains(v));
        }
    }
}

/// Equal jobs are enqueued once: enqueueing a job equal to one enqueued
/// just before changes nothing, and the job is pending.
pub proof fn lemma_enqueue_deduplicates(q0: Queue, q1: Queue, q2: Queue, a: JobView, b: JobView)
    requires
        enqueued(q0, a, q1),
        enqueued(q1, b, q2),
        a == b,
    ensures
        q1.pending().contains(a),
        q2.pending() == q1.pending(),
        forall|v: JobView| #[trigger] q2.state_of(v) == q1.state_of(v),
{
    if !q0.pending().contains(a) {
        assert(q1.pending()[q1.pending().len() - 1] == a);
    }
}

/// A terminal state is a job's last: a step that moves one job out of a
/// state that is not terminal (as `fetch` and `finished` do), or that moves
/// none (as `done` does), leaves the state of every completed job as it was.
/// So a job that `finished` moved from `Running` to a terminal state keeps it.
pub proof fn lemma_terminal_state_kept(
    before: Queue,
    after: Queue,
    v: JobView,
    u: JobView,
    from: JobState,
    to: JobState,
)
    requires
        before.completed(v),
        moved(before, after, u, from, to) && !is_terminal(from) || same_states(before, after),
    ensures
        after.state_of(v) == before.state_of(v),
{
    if same_states(before, after) {
        assert(after.state_of(v) == before.state_of(v));
    } else {
        assert(v != u);
        assert(after.state_of(v) == before.state_of(v));
    }
}

/// Enqueueing keeps every pending job pending, and the job is pending after.
pub proof fn lemma_enqueued_grows(q0: Queue, j: JobView, q1: Queue)
    requires
        enqueued(q0, j, q1),
    ensures
        q1.pending().contains(j),
        forall|x: JobView| q0.pending().contains(x) ==> #[trigger] q1.pending().contains(x),
{
    if !q0.pending().contains(j) {
        assert(q1.pending()[q1.pending().len() - 1] == j);
        assert forall|x: JobView| q0.pending().contains(x) implies #[trigger] q1.pending().contains(x) by {
            let k = choose|k: int| 0 <= k < q0.pending().len() && q0.pending()[k] == x;
            assert(q1.pending()[k] == x);
        }
    }
}

/// A job that has been handed out, running or completed, is not pending:
/// `fetch` cannot hand it out again unless it is enqueued anew.
pub proof fn lemma_handed_out_once(q: Queue, v: JobView)
    requires
        q.wf(),
        q.state_of(v) is Some,
        q.state_of(v) != Some(JobState::Ready),
    ensures
        !q.pending().contains(v),
        forall|k: int| #[trigger] q.startable(k) ==> q.pending()[k] != v,
{
    if q.pending().contains(v) {
        let k = choose|k: int| 0 <= k < q.pending().len() && q.pending()[k] == v;
        assert(q.state_of(q.pending()[k]) == Some(JobState::Ready));
    }
}

/// Once the drained queue's last running job has been reported, every job
/// ever enqueued has completed successfully.
pub proof fn lemma_drained_reported(q: Queue)
    requires
        q.wf(),
        q.is_done(),
        !q.is_failed(),
        !q.has_alive(),
        forall|v: JobView| #[trigger] q.state_of(v) != Some(JobState::Running),
    ensures
        q.pending().len() == 0,
        forall|v: JobView| #[trigger] q.state_of(v) is Some ==> is_success(q.state_of(v)->0),
{
    lemma_drained(&q);
    assert forall|v: JobView| #[trigger] q.state_of(v) is Some implies is_success(q.state_of(v)->0) by {
        assert(q.state_of(v) != Some(JobState::Running));
    }
}

} // verus!
