//! The per-frame dependency-scheduled job executor.
//!
//! Construction turns the registered jobs of one kind into an immutable
//! directed graph: per-job predecessor counts split by fan-out, successor
//! lists, and the roots; a cyclic graph is rejected.  A frame run seeds the
//! ready queue with the roots, executes ready jobs in order, counts each
//! finished predecessor obligation into its successors'
//! `dependencies_finished` counters, and enqueues a successor once its
//! counter saturates at
//! `regular_predecessors + per_viewport_predecessors * viewport_count`.
//! The first error ends the frame; counters are reset before the run
//! returns.
use vstd::prelude::*;

verus! {

use vstd::seq_lib::*;
use vstd::set_lib::*;
use crate::job::{Job, JobKind, JobRegistry};
use crate::result::{Error, SourceLocation};
use crate::scene::{EntityDescriptor, SceneState};
use crate::versioned_index_id::{StandardVersionedIndexId, MAX_INDEX};

broadcast use StandardVersionedIndexId::lemma_index_bounds;

/// A distinct sequence of positions below `n` has at most `n` entries.
proof fn lemma_distinct_usizes_bound(s: Seq<usize>, n: int)
    requires
        s.no_duplicates(),
        forall|k: int| 0 <= k < s.len() ==> (#[trigger] s[k]) < n,
        0 <= n,
    ensures
        s.len() <= n,
{
    let t = s.map_values(|x: usize| x as int);
    assert forall|k1: int, k2: int| 0 <= k1 < k2 < t.len() implies t[k1] != t[k2] by {
        assert(s[k1] != s[k2]);
    }
    assert(t.no_duplicates());
    crate::id_storage::lemma_distinct_in_range_bound(t, n);
}

/// Membership after appending one element.
proof fn lemma_contains_after_push(s: Seq<usize>, x: usize, y: usize)
    ensures
        s.push(x).contains(y) <==> (s.contains(y) || y == x),
{
    if s.contains(y) {
        let k = choose|k: int| 0 <= k < s.len() && s[k] == y;
        assert(s.push(x)[k] == y);
    }
    assert(s.push(x)[s.len() as int] == x);
    if s.push(x).contains(y) {
        let k = choose|k: int| 0 <= k < s.push(x).len() && s.push(x)[k] == y;
        if k < s.len() {
            assert(s[k] == y);
        }
    }
}

/// A subset of a finite set with the same cardinality is the whole set.
proof fn lemma_subset_equal_card<A>(a: Set<A>, b: Set<A>)
    requires
        a.subset_of(b),
        b.finite(),
        a.finite(),
        a.len() == b.len(),
    ensures
        forall|x: A| b.contains(x) ==> a.contains(x),
{
    assert forall|x: A| b.contains(x) implies a.contains(x) by {
        if !a.contains(x) {
            lemma_len_subset(a, b.remove(x));
            assert(b.remove(x).len() == b.len() - 1);
        }
    }
}

/// The instances one job contributes to a frame: one per snapshot viewport
/// when it fans out, one bare instance otherwise.
spec fn job_instances(
    j: int,
    per_viewport: bool,
    snapshot: Seq<StandardVersionedIndexId>,
) -> Seq<(int, Option<StandardVersionedIndexId>)> {
    if per_viewport {
        Seq::new(snapshot.len(), |v: int| (j, Some(snapshot[v])))
    } else {
        seq![(j, None::<StandardVersionedIndexId>)]
    }
}

/// Number of entries of `log` that name job `p`.
spec fn entries_of(
    log: Seq<(int, Option<StandardVersionedIndexId>, Result<(), Error>)>,
    p: int,
) -> int
    decreases log.len(),
{
    if log.len() == 0 {
        0
    } else {
        entries_of(log.drop_last(), p) + (if log.last().0 == p {
            1int
        } else {
            0int
        })
    }
}

/// Number of entries of `log` whose job is one of `preds`.
spec fn preds_entries(
    preds: Seq<usize>,
    log: Seq<(int, Option<StandardVersionedIndexId>, Result<(), Error>)>,
) -> int
    decreases preds.len(),
{
    if preds.len() == 0 {
        0
    } else {
        preds_entries(preds.drop_last(), log) + entries_of(log, preds.last() as int)
    }
}

/// One sequence is the other's start.
spec fn is_prefix_of<A>(a: Seq<A>, b: Seq<A>) -> bool {
    a.len() <= b.len() && forall|i: int| 0 <= i < a.len() ==> a[i] == b[i]
}

/// Among the first `upto` entries of `preds`, how many name a job that
/// runs once per frame.
spec fn count_preds_regular<F>(jobs: Seq<JobState<F>>, preds: Seq<usize>, upto: int) -> int
    decreases upto,
{
    if upto <= 0 {
        0
    } else {
        count_preds_regular(jobs, preds, upto - 1) + (if jobs[preds[upto
            - 1] as int].executed_per_viewport {
            0int
        } else {
            1int
        })
    }
}

/// Among the first `upto` entries of `preds`, how many name a fanned-out
/// job.
spec fn count_preds_per_viewport<F>(
    jobs: Seq<JobState<F>>,
    preds: Seq<usize>,
    upto: int,
) -> int
    decreases upto,
{
    if upto <= 0 {
        0
    } else {
        count_preds_per_viewport(jobs, preds, upto - 1) + (if jobs[preds[upto
            - 1] as int].executed_per_viewport {
            1int
        } else {
            0int
        })
    }
}

/// The two predecessor counts split the list.
proof fn lemma_preds_counts_sum<F>(jobs: Seq<JobState<F>>, preds: Seq<usize>, upto: int)
    requires
        0 <= upto,
    ensures
        0 <= count_preds_regular(jobs, preds, upto) <= upto,
        0 <= count_preds_per_viewport(jobs, preds, upto) <= upto,
        count_preds_regular(jobs, preds, upto) + count_preds_per_viewport(jobs, preds, upto)
            == upto,
    decreases upto,
{
    if upto > 0 {
        lemma_preds_counts_sum(jobs, preds, upto - 1);
    }
}

/// The counts read only the fan-out flags of the named jobs.
proof fn lemma_preds_counts_congruent<F>(
    jobs1: Seq<JobState<F>>,
    jobs2: Seq<JobState<F>>,
    preds: Seq<usize>,
    upto: int,
)
    requires
        0 <= upto <= preds.len(),
        forall|t: int|
            0 <= t < upto ==> (preds[t] as int) < jobs1.len() && (preds[t] as int)
                < jobs2.len() && jobs1[(#[trigger] preds[t]) as int].executed_per_viewport
                == jobs2[preds[t] as int].executed_per_viewport,
    ensures
        count_preds_regular(jobs1, preds, upto) == count_preds_regular(jobs2, preds, upto),
        count_preds_per_viewport(jobs1, preds, upto) == count_preds_per_viewport(
            jobs2,
            preds,
            upto,
        ),
    decreases upto,
{
    if upto > 0 {
        lemma_preds_counts_congruent(jobs1, jobs2, preds, upto - 1);
    }
}

/// The counts read only the first `upto` entries of the list.
proof fn lemma_preds_counts_prefix<F>(
    jobs: Seq<JobState<F>>,
    preds1: Seq<usize>,
    preds2: Seq<usize>,
    upto: int,
)
    requires
        0 <= upto,
        forall|t: int| 0 <= t < upto ==> (#[trigger] preds1[t]) == preds2[t],
    ensures
        count_preds_regular(jobs, preds1, upto) == count_preds_regular(jobs, preds2, upto),
        count_preds_per_viewport(jobs, preds1, upto) == count_preds_per_viewport(
            jobs,
            preds2,
            upto,
        ),
    decreases upto,
{
    if upto > 0 {
        lemma_preds_counts_prefix(jobs, preds1, preds2, upto - 1);
    }
}

/// How many of the first `upto` entries of `preds` equal `x`.
spec fn count_occurrences(preds: Seq<usize>, x: usize, upto: int) -> int
    decreases upto,
{
    if upto <= 0 {
        0
    } else {
        count_occurrences(preds, x, upto - 1) + (if preds[upto - 1] == x {
            1int
        } else {
            0int
        })
    }
}

/// In a duplicate-free list an element occurs once or not at all.
proof fn lemma_count_occurrences(preds: Seq<usize>, x: usize, upto: int)
    requires
        preds.no_duplicates(),
        0 <= upto <= preds.len(),
    ensures
        count_occurrences(preds, x, upto) == (if exists|t: int|
            0 <= t < upto && preds[t] == x {
            1int
        } else {
            0int
        }),
    decreases upto,
{
    if upto > 0 {
        lemma_count_occurrences(preds, x, upto - 1);
        if preds[upto - 1] == x {
            if exists|t: int| 0 <= t < upto - 1 && preds[t] == x {
                let t = choose|t: int| 0 <= t < upto - 1 && preds[t] == x;
                assert(preds[t] == preds[upto - 1]);
                assert(false);
            }
        } else {
            if exists|t: int| 0 <= t < upto && preds[t] == x {
                let t = choose|t: int| 0 <= t < upto && preds[t] == x;
                assert(0 <= t < upto - 1 && preds[t] == x);
            }
        }
    }
}

/// The pair projections of the entries of `log` that name job `p`.
spec fn pairs_of_job(
    log: Seq<(int, Option<StandardVersionedIndexId>, Result<(), Error>)>,
    p: int,
) -> Seq<(int, Option<StandardVersionedIndexId>)>
    decreases log.len(),
{
    if log.len() == 0 {
        Seq::empty()
    } else {
        pairs_of_job(log.drop_last(), p) + (if log.last().0 == p {
            seq![(log.last().0, log.last().1)]
        } else {
            Seq::empty()
        })
    }
}

/// Facts about one job's entries: there are as many as [`entries_of`]
/// counts, each comes from a position of `log`, and distinct instances stay
/// distinct.
proof fn lemma_pairs_of_job(
    log: Seq<(int, Option<StandardVersionedIndexId>, Result<(), Error>)>,
    p: int,
)
    requires
        forall|k1: int, k2: int|
            0 <= k1 < k2 < log.len() ==> !(log[k1].0 == log[k2].0 && log[k1].1 == log[k2].1),
    ensures
        pairs_of_job(log, p).len() == entries_of(log, p),
        pairs_of_job(log, p).no_duplicates(),
        forall|x: (int, Option<StandardVersionedIndexId>)|
            #[trigger] pairs_of_job(log, p).contains(x) <==> (x.0 == p && exists|k: int|
                0 <= k < log.len() && log[k].0 == p && log[k].1 == x.1),
    decreases log.len(),
{
    if log.len() > 0 {
        lemma_pairs_of_job(log.drop_last(), p);
        let prev = pairs_of_job(log.drop_last(), p);
        let cur = pairs_of_job(log, p);
        assert forall|x: (int, Option<StandardVersionedIndexId>)| #[trigger] cur.contains(x)
            <==> (x.0 == p && exists|k: int|
            0 <= k < log.len() && log[k].0 == p && log[k].1 == x.1) by {
            if cur.contains(x) {
                let i = choose|i: int| 0 <= i < cur.len() && cur[i] == x;
                if i < prev.len() {
                    assert(prev[i] == x);
                    assert(prev.contains(x));
                    let k = choose|k: int|
                        0 <= k < log.len() - 1 && log.drop_last()[k].0 == p
                            && log.drop_last()[k].1 == x.1;
                    assert(log[k].0 == p && log[k].1 == x.1);
                } else {
                    assert(x == (log.last().0, log.last().1));
                    assert(log[log.len() - 1].0 == p && log[log.len() - 1].1 == x.1);
                }
            }
            if x.0 == p && exists|k: int| 0 <= k < log.len() && log[k].0 == p && log[k].1
                == x.1 {
                let k = choose|k: int| 0 <= k < log.len() && log[k].0 == p && log[k].1 == x.1;
                if k < log.len() - 1 {
                    assert(log.drop_last()[k].0 == p && log.drop_last()[k].1 == x.1);
                    assert(prev.contains(x));
                    let i = choose|i: int| 0 <= i < prev.len() && prev[i] == x;
                    assert(cur[i] == x);
                } else {
                    if log.last().0 == p {
                        assert(cur[prev.len() as int] == (log.last().0, log.last().1));
                        assert(log.last().1 == x.1);
                        assert(cur[prev.len() as int] == x);
                    }
                }
            }
        }
        assert forall|i1: int, i2: int| 0 <= i1 < i2 < cur.len() implies cur[i1]
            != cur[i2] by {
            if i2 == cur.len() - 1 && log.last().0 == p {
                assert(cur[i1] == prev[i1]);
                assert(prev.contains(prev[i1]));
                let k = choose|k: int|
                    0 <= k < log.len() - 1 && log.drop_last()[k].0 == p
                        && log.drop_last()[k].1 == prev[i1].1;
                assert(!(log[k].0 == log[log.len() - 1].0 && log[k].1 == log[log.len()
                    - 1].1));
            } else {
                assert(cur[i1] == prev[i1] && cur[i2] == prev[i2]);
            }
        }
    }
}

/// The instances of one job hold no repeats.
proof fn lemma_job_instances_distinct(
    j: int,
    per_viewport: bool,
    snapshot: Seq<StandardVersionedIndexId>,
)
    requires
        snapshot.no_duplicates(),
    ensures
        job_instances(j, per_viewport, snapshot).no_duplicates(),
        job_instances(j, per_viewport, snapshot).len() == (if per_viewport {
            snapshot.len() as int
        } else {
            1int
        }),
{
    let insts = job_instances(j, per_viewport, snapshot);
    assert forall|i1: int, i2: int| 0 <= i1 < i2 < insts.len() implies insts[i1]
        != insts[i2] by {
        if per_viewport {
            assert(snapshot[i1] != snapshot[i2]);
        }
    }
}

/// What a job function sees of the frame: the frame times as raw bit
/// patterns, the viewport the invocation is for (if the job fans out), and
/// the entity requests collected during the frame.
pub struct SystemResources {
    game_time_bits: u32,
    delta_time_bits: u32,
    viewport: Option<StandardVersionedIndexId>,
    spawned_entities: Vec<EntityDescriptor>,
    despawned_entities: Vec<StandardVersionedIndexId>,
}

impl SystemResources {
    /// The game time for this frame, as `f32` bits.
    pub closed spec fn spec_game_time_bits(self) -> u32 {
        self.game_time_bits
    }

    /// The frame delta time, as `f32` bits.
    pub closed spec fn spec_delta_time_bits(self) -> u32 {
        self.delta_time_bits
    }

    /// The viewport of this invocation, if any.
    pub closed spec fn spec_viewport(self) -> Option<StandardVersionedIndexId> {
        self.viewport
    }

    /// The spawn requests submitted so far this frame.
    pub closed spec fn spec_spawn_requests(self) -> Seq<EntityDescriptor> {
        self.spawned_entities@
    }

    /// The despawn requests submitted so far this frame.
    pub closed spec fn spec_despawn_requests(self) -> Seq<StandardVersionedIndexId> {
        self.despawned_entities@
    }

    /// The game time for this frame, as `f32` bits.
    pub fn game_time_bits(&self) -> (r: u32)
        ensures
            r == self.spec_game_time_bits(),
    {
        self.game_time_bits
    }

    /// The frame delta time, as `f32` bits.
    pub fn delta_time_bits(&self) -> (r: u32)
        ensures
            r == self.spec_delta_time_bits(),
    {
        self.delta_time_bits
    }

    /// The viewport this invocation is for; `None` for per-frame jobs.
    pub fn viewport(&self) -> (r: Option<StandardVersionedIndexId>)
        ensures
            r == self.spec_viewport(),
    {
        self.viewport
    }

    /// Asks for one entity to be spawned after the frame.
    pub fn spawn_entity(&mut self, descriptor: EntityDescriptor)
        ensures
            final(self).spec_spawn_requests() == old(self).spec_spawn_requests().push(
                descriptor,
            ),
            final(self).spec_despawn_requests() == old(self).spec_despawn_requests(),
            final(self).spec_viewport() == old(self).spec_viewport(),
            final(self).spec_game_time_bits() == old(self).spec_game_time_bits(),
            final(self).spec_delta_time_bits() == old(self).spec_delta_time_bits(),
    {
        self.spawned_entities.push(descriptor);
    }

    /// Asks for an entity to be despawned after the frame.
    pub fn despawn_entity(&mut self, id: StandardVersionedIndexId)
        ensures
            final(self).spec_despawn_requests() == old(self).spec_despawn_requests().push(id),
            final(self).spec_spawn_requests() == old(self).spec_spawn_requests(),
            final(self).spec_viewport() == old(self).spec_viewport(),
            final(self).spec_game_time_bits() == old(self).spec_game_time_bits(),
            final(self).spec_delta_time_bits() == old(self).spec_delta_time_bits(),
    {
        self.despawned_entities.push(id);
    }
}

/// One ready-queue entry: a job and, for fanned-out jobs, the viewport the
/// invocation is for.
#[derive(Clone, Copy)]
struct ScheduledJob {
    job_index: usize,
    viewport: Option<StandardVersionedIndexId>,
}

/// Per-job graph state.
struct JobState<F> {
    id: StandardVersionedIndexId,
    function: F,
    regular_dependency_count: u64,
    per_viewport_dependency_count: u64,
    dependencies_finished: u64,
    required_for: Vec<usize>,
    predecessors: Vec<usize>,
    executed_per_viewport: bool,
}

/// The job graph for one job kind, plus the machinery of a frame run.
pub struct Scheduler<F> {
    jobs: Vec<JobState<F>>,
    jobs_without_dependencies: Vec<usize>,
    regular_job_count: u64,
    per_viewport_job_count: u64,
    last_run: Ghost<Seq<(int, Option<StandardVersionedIndexId>, Result<(), Error>)>>,
    last_frame_entities: Ghost<crate::id_storage::IdStorage>,
    last_despawns: Ghost<Seq<StandardVersionedIndexId>>,
    last_spawn_count: Ghost<int>,
}

impl<F> Scheduler<F> {
    /// Number of jobs in the graph.
    pub closed spec fn spec_job_count(self) -> int {
        self.jobs@.len() as int
    }

    /// The registered id of job `j`.
    pub closed spec fn spec_job_id(self, j: int) -> StandardVersionedIndexId {
        self.jobs@[j].id
    }

    /// The function of job `j`.
    pub closed spec fn spec_function(self, j: int) -> F {
        self.jobs@[j].function
    }

    /// Whether job `j` fans out over viewports.
    pub closed spec fn spec_per_viewport(self, j: int) -> bool {
        self.jobs@[j].executed_per_viewport
    }

    /// The successors of job `j`.
    pub closed spec fn spec_successors(self, j: int) -> Seq<usize> {
        self.jobs@[j].required_for@
    }

    /// The predecessors of job `j`.
    pub closed spec fn spec_predecessors(self, j: int) -> Seq<usize> {
        self.jobs@[j].predecessors@
    }

    /// `order` visits every job once and every predecessor edge points
    /// backwards in it: a witness that the dependency graph is acyclic.
    pub open spec fn spec_topological_order(self, order: Seq<int>) -> bool {
        &&& order.len() == self.spec_job_count()
        &&& order.no_duplicates()
        &&& forall|k: int| 0 <= k < order.len() ==> 0 <= #[trigger] order[k] < self.spec_job_count()
        &&& forall|k: int, p: usize|
            0 <= k < order.len() && (#[trigger] self.spec_predecessors(order[k]).contains(p))
                ==> exists|k2: int| 0 <= k2 < k && order[k2] == p as int
    }

    /// The `dependencies_finished` counter of job `j`.
    pub closed spec fn spec_dependencies_finished(self, j: int) -> int {
        self.jobs@[j].dependencies_finished as int
    }

    /// Number of jobs that run once per frame.
    pub closed spec fn spec_regular_job_count(self) -> int {
        self.regular_job_count as int
    }

    /// Number of jobs that run once per viewport per frame.
    pub closed spec fn spec_per_viewport_job_count(self) -> int {
        self.per_viewport_job_count as int
    }

    /// Number of per-frame jobs among the first `upto`.
    pub closed spec fn count_regular_prefix(self, upto: int) -> int
        decreases upto,
    {
        if upto <= 0 {
            0
        } else {
            self.count_regular_prefix(upto - 1) + (if self.jobs@[upto - 1].executed_per_viewport {
                0int
            } else {
                1int
            })
        }
    }

    /// Number of fanned-out jobs among the first `upto`.
    pub closed spec fn count_per_viewport_prefix(self, upto: int) -> int
        decreases upto,
    {
        if upto <= 0 {
            0
        } else {
            self.count_per_viewport_prefix(upto - 1) + (if self.jobs@[upto
                - 1].executed_per_viewport {
                1int
            } else {
                0int
            })
        }
    }

    /// How many executions one frame with `viewport_count` viewports owes:
    /// every per-frame job once and every fanned-out job once per viewport.
    pub open spec fn spec_expected_executions(self, viewport_count: int) -> int {
        self.count_regular_prefix(self.spec_job_count()) + self.count_per_viewport_prefix(
            self.spec_job_count(),
        ) * viewport_count
    }

    /// The prefix counts are bounded by the prefix length and agree between
    /// schedulers with the same graph.
    proof fn lemma_prefix_counts(self, other: Self, upto: int)
        requires
            self.same_graph(other),
            0 <= upto <= self.spec_job_count(),
        ensures
            0 <= self.count_regular_prefix(upto) <= upto,
            0 <= self.count_per_viewport_prefix(upto) <= upto,
            self.count_regular_prefix(upto) + self.count_per_viewport_prefix(upto) == upto,
            self.count_regular_prefix(upto) == other.count_regular_prefix(upto),
            self.count_per_viewport_prefix(upto) == other.count_per_viewport_prefix(upto),
        decreases upto,
    {
        if upto > 0 {
            self.lemma_prefix_counts(other, upto - 1);
            assert(self.spec_job_id(upto - 1) == other.spec_job_id(upto - 1));
            assert(self.spec_per_viewport(upto - 1) == other.spec_per_viewport(upto - 1));
        }
    }

    /// Number of predecessors of job `j` that run once per frame.
    pub closed spec fn spec_regular_dependency_count(self, j: int) -> int {
        self.jobs@[j].regular_dependency_count as int
    }

    /// Number of predecessors of job `j` that fan out over viewports.
    pub closed spec fn spec_per_viewport_dependency_count(self, j: int) -> int {
        self.jobs@[j].per_viewport_dependency_count as int
    }

    /// How many finished predecessor obligations job `j` waits for in a
    /// frame with `viewport_count` viewports.
    pub open spec fn spec_total_obligations(self, j: int, viewport_count: int) -> int {
        self.spec_regular_dependency_count(j) + self.spec_per_viewport_dependency_count(j)
            * viewport_count
    }

    /// Executions of the last frame run, in order: job index, viewport, and
    /// the result its function returned.
    pub closed spec fn spec_last_run(self) -> Seq<
        (int, Option<StandardVersionedIndexId>, Result<(), Error>),
    > {
        self.last_run@
    }

    /// The entity storage as the last frame's jobs left it, before the
    /// frame's entity requests were applied.
    pub closed spec fn spec_last_frame_entities(self) -> crate::id_storage::IdStorage {
        self.last_frame_entities@
    }

    /// The despawn requests the last frame's jobs submitted, in order.
    pub closed spec fn spec_last_despawns(self) -> Seq<StandardVersionedIndexId> {
        self.last_despawns@
    }

    /// How many spawn requests the last frame's jobs submitted.
    pub closed spec fn spec_last_spawn_count(self) -> int {
        self.last_spawn_count@
    }

    /// A topological order of one scheduler orders any scheduler with the
    /// same graph: running frames never invalidates the acyclicity witness.
    pub proof fn lemma_same_graph_topological_order(a: Self, b: Self, order: Seq<int>)
        requires
            a.same_graph(b),
            b.spec_topological_order(order),
        ensures
            a.spec_topological_order(order),
    {
        assert forall|k: int, p: usize|
            0 <= k < order.len() && (#[trigger] a.spec_predecessors(order[k]).contains(
                p,
            )) implies exists|k2: int| 0 <= k2 < k && order[k2] == p as int by {
            assert(0 <= order[k] < b.spec_job_count());
            assert(a.spec_job_id(order[k]) == b.spec_job_id(order[k]));
            assert(b.spec_predecessors(order[k]).contains(p));
        }
    }

    /// Job `j` is a root: it has no predecessors.
    pub open spec fn spec_is_root(self, j: int) -> bool {
        self.spec_predecessors(j).len() == 0
    }

    /// The graphs of two schedulers agree; only counters and the run log
    /// may differ.
    pub open spec fn same_graph(self, other: Self) -> bool {
        &&& self.spec_job_count() == other.spec_job_count()
        &&& self.spec_regular_job_count() == other.spec_regular_job_count()
        &&& self.spec_per_viewport_job_count() == other.spec_per_viewport_job_count()
        &&& (forall|j: int|
            0 <= j < self.spec_job_count() ==> {
                &&& #[trigger] self.spec_job_id(j) == other.spec_job_id(j)
                &&& self.spec_function(j) == other.spec_function(j)
                &&& self.spec_per_viewport(j) == other.spec_per_viewport(j)
                &&& self.spec_successors(j) == other.spec_successors(j)
                &&& self.spec_predecessors(j) == other.spec_predecessors(j)
                &&& self.spec_regular_dependency_count(j) == other.spec_regular_dependency_count(
                    j,
                )
                &&& self.spec_per_viewport_dependency_count(j)
                    == other.spec_per_viewport_dependency_count(j)
            })
    }

    /// Per-job structural invariant within a graph of `n` jobs.
    spec fn job_wf(self, j: int, n: int) -> bool {
        let job = self.jobs@[j];
        &&& job.required_for@.no_duplicates()
        &&& (forall|k: int|
            0 <= k < job.required_for@.len() ==> (#[trigger] job.required_for@[k]) < n)
        &&& job.predecessors@.no_duplicates()
        &&& (forall|k: int|
            0 <= k < job.predecessors@.len() ==> (#[trigger] job.predecessors@[k]) < n)
        &&& job.regular_dependency_count as int == count_preds_regular(
            self.jobs@,
            job.predecessors@,
            job.predecessors@.len() as int,
        )
        &&& job.per_viewport_dependency_count as int == count_preds_per_viewport(
            self.jobs@,
            job.predecessors@,
            job.predecessors@.len() as int,
        )
    }

    /// Structural invariant of the graph alone: successor and predecessor
    /// lists mirror one another, stay in range and free of duplicates, the
    /// split dependency counts match the predecessor lists, and the root
    /// list is exact.
    pub closed spec fn graph_wf(self) -> bool {
        let n = self.jobs@.len() as int;
        &&& n <= MAX_INDEX as int
        &&& (forall|j: int| 0 <= j < n ==> self.job_wf(j, n))
        &&& (forall|p: int, s: int|
            0 <= p < n && 0 <= s < n ==> (self.spec_successors(p).contains(s as usize)
                <==> self.spec_predecessors(s).contains(p as usize)))
        &&& self.jobs_without_dependencies@.no_duplicates()
        &&& (forall|k: int|
            0 <= k < self.jobs_without_dependencies@.len() ==> (
            #[trigger] self.jobs_without_dependencies@[k]) < n)
        &&& (forall|j: int|
            0 <= j < n ==> (self.jobs_without_dependencies@.contains(j as usize)
                <==> self.spec_is_root(j)))
        &&& self.regular_job_count + self.per_viewport_job_count == n
    }

    /// Structural invariant between frames: the graph is intact and all
    /// counters rest at zero.
    pub open spec fn wf(self) -> bool {
        &&& self.graph_wf()
        &&& (forall|j: int|
            0 <= j < self.spec_job_count() ==> self.spec_dependencies_finished(j) == 0)
    }
}

/// Number of set flags.
spec fn count_true(s: Seq<bool>) -> int
    decreases s.len(),
{
    if s.len() == 0 {
        0
    } else {
        count_true(s.drop_last()) + (if s.last() {
            1int
        } else {
            0int
        })
    }
}

/// There are never more set flags than flags.
proof fn lemma_count_true_bound(s: Seq<bool>)
    ensures
        0 <= count_true(s) <= s.len(),
    decreases s.len(),
{
    if s.len() > 0 {
        lemma_count_true_bound(s.drop_last());
    }
}

/// A sequence of unset flags counts zero.
proof fn lemma_count_true_all_false(s: Seq<bool>)
    requires
        forall|j: int| 0 <= j < s.len() ==> !(#[trigger] s[j]),
    ensures
        count_true(s) == 0,
    decreases s.len(),
{
    if s.len() > 0 {
        lemma_count_true_all_false(s.drop_last());
    }
}

/// Setting one unset flag raises the count by one.
proof fn lemma_count_true_set(s: Seq<bool>, j: int)
    requires
        0 <= j < s.len(),
        !s[j],
    ensures
        count_true(s.update(j, true)) == count_true(s) + 1,
    decreases s.len(),
{
    let t = s.update(j, true);
    if j == s.len() - 1 {
        assert(t.drop_last() =~= s.drop_last());
    } else {
        assert(t.drop_last() =~= s.drop_last().update(j, true));
        lemma_count_true_set(s.drop_last(), j);
    }
}

/// Every scheduler job descends from a kind-matching registry entry and
/// its counter rests at zero.
spec fn sources_ok<F>(
    jobs: Seq<JobState<F>>,
    pairs: Seq<(StandardVersionedIndexId, &Job<F>)>,
    source_of: Seq<usize>,
    kind: JobKind,
) -> bool {
    &&& source_of.len() == jobs.len()
    &&& forall|j2: int|
        0 <= j2 < jobs.len() ==> {
            let i = (#[trigger] source_of[j2]) as int;
            &&& 0 <= i < pairs.len()
            &&& jobs[j2].id == pairs[i].0
            &&& pairs[i].1.spec_kind() == kind
            &&& jobs[j2].function == pairs[i].1.spec_function()
            &&& jobs[j2].executed_per_viewport == pairs[i].1.spec_per_viewport()
            &&& jobs[j2].dependencies_finished == 0
        }
}

/// The first `upto` jobs' predecessor edges are exactly the dependencies
/// their registry entries declare.
spec fn edges_ok<F>(
    jobs: Seq<JobState<F>>,
    pairs: Seq<(StandardVersionedIndexId, &Job<F>)>,
    source_of: Seq<usize>,
    upto: int,
) -> bool {
    forall|jx: int, p2: int|
        0 <= jx < upto && 0 <= p2 < jobs.len() ==> ((#[trigger] jobs[jx].predecessors@.contains(
            p2 as usize,
        )) <==> pairs[source_of[jx] as int].1.spec_dependencies().contains(jobs[p2].id))
}

/// The predecessor lists of the first `upto` jobs are in range, free of
/// duplicates, and match the split counts.
spec fn preds_ok<F>(jobs: Seq<JobState<F>>, upto: int) -> bool {
    forall|j2: int|
        0 <= j2 < upto ==> {
            let job = #[trigger] jobs[j2];
            &&& job.predecessors@.no_duplicates()
            &&& (forall|t: int|
                0 <= t < job.predecessors@.len() ==> ((#[trigger] job.predecessors@[t]) as int)
                    < jobs.len())
            &&& job.regular_dependency_count as int == count_preds_regular(
                jobs,
                job.predecessors@,
                job.predecessors@.len() as int,
            )
            &&& job.per_viewport_dependency_count as int == count_preds_per_viewport(
                jobs,
                job.predecessors@,
                job.predecessors@.len() as int,
            )
        }
}

/// Translates one job's declared dependencies into scheduler indexes and
/// splits them by the predecessors' fan-out mode.  Dependencies that name
/// no job of this graph, and self-references, are skipped.
fn build_predecessors<F>(
    jobs: &Vec<JobState<F>>,
    lookup: &Vec<Option<usize>>,
    deps: &Vec<StandardVersionedIndexId>,
    j: usize,
) -> (r: (Vec<usize>, u64, u64))
    requires
        j < jobs@.len(),
        deps@.no_duplicates(),
        forall|i: int|
            0 <= i < lookup@.len() && (#[trigger] lookup@[i]) is Some ==> ({
                let p = lookup@[i].unwrap() as int;
                0 <= p < jobs@.len() && jobs@[p].id.spec_index() == i
            }),
        forall|j2: int|
            0 <= j2 < jobs@.len() ==> 0 <= (#[trigger] jobs@[j2].id).spec_index()
                < lookup@.len() && lookup@[jobs@[j2].id.spec_index()] == Some(j2 as usize),
    ensures
        r.0@.no_duplicates(),
        forall|k: int|
            0 <= k < r.0@.len() ==> ((#[trigger] r.0@[k]) as int) < jobs@.len(),
        r.1 as int == count_preds_regular(jobs@, r.0@, r.0@.len() as int),
        r.2 as int == count_preds_per_viewport(jobs@, r.0@, r.0@.len() as int),
        r.1 + r.2 == r.0@.len(),
        forall|p2: usize|
            (p2 as int) < jobs@.len() ==> ((#[trigger] r.0@.contains(p2)) <==> deps@.contains(
                jobs@[p2 as int].id,
            )),
{
    let mut preds: Vec<usize> = Vec::new();
    let mut regular: u64 = 0;
    let mut per_viewport: u64 = 0;
    let mut i: usize = 0;
    while i < deps.len()
        invariant
            j < jobs@.len(),
            deps@.no_duplicates(),
            forall|i2: int|
                0 <= i2 < lookup@.len() && (#[trigger] lookup@[i2]) is Some ==> ({
                    let p = lookup@[i2].unwrap() as int;
                    0 <= p < jobs@.len() && jobs@[p].id.spec_index() == i2
                }),
            i <= deps@.len(),
            preds@.no_duplicates(),
            preds@.len() <= i,
            forall|k: int|
                0 <= k < preds@.len() ==> ((#[trigger] preds@[k]) as int) < jobs@.len(),
            regular + per_viewport == preds@.len(),
            regular as int == count_preds_regular(jobs@, preds@, preds@.len() as int),
            per_viewport as int == count_preds_per_viewport(jobs@, preds@, preds@.len() as int),
            forall|k: int|
                0 <= k < preds@.len() ==> exists|d: int|
                    0 <= d < i && deps@[d] == jobs@[(#[trigger] preds@[k]) as int].id,
            forall|j2: int|
                0 <= j2 < jobs@.len() ==> 0 <= (#[trigger] jobs@[j2].id).spec_index()
                    < lookup@.len() && lookup@[jobs@[j2].id.spec_index()] == Some(j2 as usize),
            forall|p2: usize|
                (p2 as int) < jobs@.len() ==> ((#[trigger] preds@.contains(p2)) <==> (exists|
                    d: int,
                |
                    0 <= d < i && deps@[d] == jobs@[p2 as int].id)),
        decreases deps@.len() - i,
    {
        let d = deps[i];
        proof {
            d.lemma_fields_in_range();
        }
        let ghost preds_before = preds@;
        let ghost mut accepted: bool = false;
        if d.index() < lookup.len() {
            match lookup[d.index()] {
                Some(p) => {
                    if jobs[p].id == d {
                        proof {
                            if preds@.contains(p) {
                                let k = choose|k: int|
                                    0 <= k < preds@.len() && preds@[k] == p;
                                let dd = choose|dd: int|
                                    0 <= dd < i && deps@[dd] == jobs@[(preds@[k]) as int].id;
                                assert(deps@[dd] == deps@[i as int]);
                            }
                            assert(!preds@.contains(p));
                        }
                        let ghost pre_preds = preds@;
                        preds.push(p);
                        if jobs[p].executed_per_viewport {
                            per_viewport = per_viewport + 1;
                        } else {
                            regular = regular + 1;
                        }
                        proof {
                            accepted = true;
                            lemma_preds_counts_prefix(
                                jobs@,
                                preds@,
                                pre_preds,
                                pre_preds.len() as int,
                            );
                            assert(preds@[pre_preds.len() as int] == p);
                            assert forall|k: int|
                                0 <= k < preds@.len() implies exists|dd: int|
                                0 <= dd < i + 1 && deps@[dd] == jobs@[(
                            #[trigger] preds@[k]) as int].id by {
                                if k < preds@.len() - 1 {
                                    let dd = choose|dd: int|
                                        0 <= dd < i && deps@[dd] == jobs@[(preds@[k]) as int].id;
                                    assert(0 <= dd < i + 1 && deps@[dd] == jobs@[(preds@[k]) as int].id);
                                } else {
                                    assert(deps@[i as int] == jobs@[(preds@[k]) as int].id);
                                }
                            }
                        }
                    }
                },
                None => {},
            }
        }
        proof {
            assert forall|p2: usize|
                (p2 as int) < jobs@.len() implies ((#[trigger] preds@.contains(p2)) <==> (
                exists|dd: int|
                    0 <= dd < i + 1 && deps@[dd] == jobs@[p2 as int].id)) by {
                assert(0 <= jobs@[p2 as int].id.spec_index() < lookup@.len());
                assert(lookup@[jobs@[p2 as int].id.spec_index()] == Some(p2));
                if accepted {
                    let x = preds@.last();
                    assert(preds@ == preds_before.push(x));
                    assert(jobs@[x as int].id == deps@[i as int]);
                    lemma_contains_after_push(preds_before, x, p2);
                    if p2 == x {
                        assert(preds@.contains(p2));
                        assert(deps@[i as int] == jobs@[p2 as int].id);
                    } else {
                        if deps@[i as int] == jobs@[p2 as int].id {
                            assert(lookup@[deps@[i as int].spec_index()] == Some(p2));
                            assert(lookup@[deps@[i as int].spec_index()] == Some(x));
                            assert(false);
                        }
                        if preds@.contains(p2) {
                            assert(preds_before.contains(p2));
                        }
                        if exists|dd: int|
                            0 <= dd < i + 1 && deps@[dd] == jobs@[p2 as int].id {
                            let dd = choose|dd: int|
                                0 <= dd < i + 1 && deps@[dd] == jobs@[p2 as int].id;
                            assert(dd < i);
                        }
                    }
                } else {
                    assert(preds@ == preds_before);
                    if deps@[i as int] == jobs@[p2 as int].id {
                        assert(deps@[i as int].spec_index() == jobs@[p2 as int].id.spec_index());
                        assert(lookup@[deps@[i as int].spec_index()] == Some(p2));
                        assert(false);
                    }
                    if exists|dd: int| 0 <= dd < i + 1 && deps@[dd] == jobs@[p2 as int].id {
                        let dd = choose|dd: int|
                            0 <= dd < i + 1 && deps@[dd] == jobs@[p2 as int].id;
                        assert(dd < i);
                    }
                }
            }
        }
        i = i + 1;
    }
    (preds, regular, per_viewport)
}

/// `order` visits every job once with every predecessor edge pointing
/// backwards.
spec fn topo_order_of<F>(jobs: Seq<JobState<F>>, order: Seq<int>) -> bool {
    &&& order.len() == jobs.len()
    &&& order.no_duplicates()
    &&& forall|k: int| 0 <= k < order.len() ==> 0 <= #[trigger] order[k] < jobs.len()
    &&& forall|k: int, p: usize|
        0 <= k < order.len() && (#[trigger] jobs[order[k]].predecessors@.contains(p)) ==> exists|
            k2: int,
        | 0 <= k2 < k && order[k2] == p as int
}

/// How many of the first `upto` predecessors have already been released.
spec fn count_preds_popped(preds: Seq<usize>, done: Seq<usize>, upto: int) -> int
    decreases upto,
{
    if upto <= 0 {
        0
    } else {
        count_preds_popped(preds, done, upto - 1) + (if done.contains(preds[upto - 1]) {
            1int
        } else {
            0int
        })
    }
}

proof fn lemma_count_preds_popped_empty(preds: Seq<usize>, done: Seq<usize>, upto: int)
    requires
        done.len() == 0,
        0 <= upto <= preds.len(),
    ensures
        count_preds_popped(preds, done, upto) == 0,
    decreases upto,
{
    if upto > 0 {
        lemma_count_preds_popped_empty(preds, done, upto - 1);
    }
}

proof fn lemma_count_preds_popped_bound(preds: Seq<usize>, done: Seq<usize>, upto: int)
    requires
        0 <= upto <= preds.len(),
    ensures
        0 <= count_preds_popped(preds, done, upto) <= upto,
    decreases upto,
{
    if upto > 0 {
        lemma_count_preds_popped_bound(preds, done, upto - 1);
    }
}

/// A full count means every counted predecessor is released.
proof fn lemma_count_preds_popped_full(preds: Seq<usize>, done: Seq<usize>, upto: int)
    requires
        0 <= upto <= preds.len(),
        count_preds_popped(preds, done, upto) == upto,
    ensures
        forall|i: int| 0 <= i < upto ==> done.contains(#[trigger] preds[i]),
    decreases upto,
{
    if upto > 0 {
        lemma_count_preds_popped_bound(preds, done, upto - 1);
        lemma_count_preds_popped_full(preds, done, upto - 1);
    }
}

/// A short count leaves some counted predecessor unreleased.
proof fn lemma_count_preds_popped_partial(preds: Seq<usize>, done: Seq<usize>, upto: int)
    requires
        0 <= upto <= preds.len(),
        count_preds_popped(preds, done, upto) < upto,
    ensures
        exists|i: int| 0 <= i < upto && !done.contains(#[trigger] preds[i]),
    decreases upto,
{
    if upto > 0 {
        if done.contains(preds[upto - 1]) {
            lemma_count_preds_popped_partial(preds, done, upto - 1);
        } else {
            assert(0 <= upto - 1 < upto && !done.contains(preds[upto - 1]));
        }
    }
}

/// Along a topological order, a release front in which only jobs with
/// an unreleased predecessor are missing swallows the order whole.
proof fn lemma_kahn_complete<F>(
    jobs: Seq<JobState<F>>,
    queue: Seq<usize>,
    indeg: Seq<u64>,
    order: Seq<int>,
    k: int,
)
    requires
        topo_order_of(jobs, order),
        0 <= k <= order.len(),
        indeg.len() == jobs.len(),
        forall|s: int|
            0 <= s < jobs.len() ==> (queue.contains(s as usize) <==> (#[trigger] indeg[s]) == 0),
        forall|s: int|
            0 <= s < jobs.len() ==> (#[trigger] indeg[s]) as int == jobs[s].predecessors@.len()
                - count_preds_popped(jobs[s].predecessors@, queue, jobs[s].predecessors@.len() as int),
    ensures
        forall|i: int| 0 <= i < k ==> queue.contains(((#[trigger] order[i]) as usize)),
    decreases k,
{
    if k > 0 {
        lemma_kahn_complete(jobs, queue, indeg, order, k - 1);
        let s2 = order[k - 1];
        assert(0 <= s2 < jobs.len());
        let preds2 = jobs[s2].predecessors@;
        if !queue.contains(s2 as usize) {
            assert(indeg[s2] != 0);
            lemma_count_preds_popped_bound(preds2, queue, preds2.len() as int);
            lemma_count_preds_popped_partial(preds2, queue, preds2.len() as int);
            let i = choose|i: int| 0 <= i < preds2.len() && !queue.contains(#[trigger] preds2[i]);
            let p = preds2[i];
            assert(preds2.contains(p));
            let k2 = choose|k2: int| 0 <= k2 < k - 1 && order[k2] == p as int;
            assert(queue.contains((order[k2]) as usize));
            assert((order[k2]) as usize == p);
            assert(false);
        }
    }
}

/// Releasing one more job raises the count by that job's occurrence count.
proof fn lemma_count_preds_popped_extend(preds: Seq<usize>, done: Seq<usize>, e: usize, upto: int)
    requires
        0 <= upto <= preds.len(),
        !done.contains(e),
    ensures
        count_preds_popped(preds, done.push(e), upto) == count_preds_popped(preds, done, upto)
            + count_occurrences(preds, e, upto),
    decreases upto,
{
    if upto > 0 {
        lemma_count_preds_popped_extend(preds, done, e, upto - 1);
        lemma_contains_after_push(done, e, preds[upto - 1]);
    }
}

/// Kahn's check: repeatedly releases jobs whose remaining in-degree is
/// zero; the graph is acyclic exactly when every job is released.  A
/// positive answer carries a topological order as its witness.
fn check_acyclic<F>(jobs: &Vec<JobState<F>>) -> (r: bool)
    requires
        jobs@.len() <= MAX_INDEX as int,
        preds_ok(jobs@, jobs@.len() as int),
        forall|p: int|
            0 <= p < jobs@.len() ==> (#[trigger] jobs@[p].required_for@).no_duplicates(),
        forall|p: int, k: int|
            0 <= p < jobs@.len() && 0 <= k < jobs@[p].required_for@.len() ==> ((
            #[trigger] jobs@[p].required_for@[k]) as int) < jobs@.len(),
        forall|p: int, s: int|
            0 <= p < jobs@.len() && 0 <= s < jobs@.len() ==> ((
            #[trigger] jobs@[p].required_for@.contains(s as usize)) <==> (
            #[trigger] jobs@[s].predecessors@.contains(p as usize))),
    ensures
        r <==> exists|order: Seq<int>| topo_order_of(jobs@, order),
{
    let n = jobs.len();
    let mut indegree: Vec<u64> = Vec::new();
    let mut queue: Vec<usize> = Vec::new();
    let mut j: usize = 0;
    while j < n
        invariant
            n == jobs@.len(),
            j <= n,
            indegree@.len() == j,
            queue@.no_duplicates(),
            forall|k: int| 0 <= k < queue@.len() ==> ((#[trigger] queue@[k]) as int) < j,
            forall|s: int|
                0 <= s < j ==> (queue@.contains(s as usize) <==> indegree@[s] == 0),
            forall|s: int|
                0 <= s < j ==> (#[trigger] indegree@[s]) as int == jobs@[s].predecessors@.len(),
        decreases n - j,
    {
        let degree = jobs[j].predecessors.len() as u64;
        indegree.push(degree);
        if degree == 0 {
            proof {
                assert(!queue@.contains(j));
            }
            let ghost pre = queue@;
            queue.push(j);
            proof {
                assert forall|s: int|
                    0 <= s < j + 1 implies (queue@.contains(s as usize) <==> indegree@[s]
                    == 0) by {
                    lemma_contains_after_push(pre, j, s as usize);
                }
            }
        } else {
            proof {
                assert(!queue@.contains(j));
                assert forall|s: int|
                    0 <= s < j + 1 implies (queue@.contains(s as usize) <==> indegree@[s]
                    == 0) by {}
            }
        }
        j = j + 1;
    }
    proof {
        lemma_distinct_usizes_bound(queue@, n as int);
        assert forall|s: int|
            0 <= s < n implies (#[trigger] indegree@[s]) as int == jobs@[s].predecessors@.len()
            - count_preds_popped(
            jobs@[s].predecessors@,
            queue@.take(0),
            jobs@[s].predecessors@.len() as int,
        ) by {
            lemma_count_preds_popped_empty(
                jobs@[s].predecessors@,
                queue@.take(0),
                jobs@[s].predecessors@.len() as int,
            );
        }
        assert forall|k: int, p: usize|
            0 <= k < queue@.len() && (#[trigger] jobs@[queue@[k] as int].predecessors@.contains(
                p,
            )) implies exists|k2: int| 0 <= k2 < k && queue@[k2] == p by {
            assert(queue@.contains(queue@[k]));
            assert(indegree@[queue@[k] as int] == 0);
            assert(jobs@[queue@[k] as int].predecessors@.len() == 0);
        }
    }
    let mut head: usize = 0;
    while head < queue.len()
        invariant
            n == jobs@.len(),
            n <= MAX_INDEX as int,
            forall|p: int|
                0 <= p < jobs@.len() ==> (#[trigger] jobs@[p].required_for@).no_duplicates(),
            forall|p: int, k: int|
                0 <= p < jobs@.len() && 0 <= k < jobs@[p].required_for@.len() ==> ((
                #[trigger] jobs@[p].required_for@[k]) as int) < jobs@.len(),
            preds_ok(jobs@, n as int),
            forall|p: int, s: int|
                0 <= p < n && 0 <= s < n ==> ((#[trigger] jobs@[p].required_for@.contains(
                    s as usize,
                )) <==> (#[trigger] jobs@[s].predecessors@.contains(p as usize))),
            indegree@.len() == n,
            queue@.no_duplicates(),
            forall|k: int| 0 <= k < queue@.len() ==> ((#[trigger] queue@[k]) as int) < n,
            forall|s: int| 0 <= s < n ==> (queue@.contains(s as usize) <==> indegree@[s] == 0),
            forall|s: int|
                0 <= s < n ==> (#[trigger] indegree@[s]) as int == jobs@[s].predecessors@.len()
                    - count_preds_popped(
                    jobs@[s].predecessors@,
                    queue@.take(head as int),
                    jobs@[s].predecessors@.len() as int,
                ),
            forall|k: int, p: usize|
                0 <= k < queue@.len() && (#[trigger] jobs@[queue@[k] as int].predecessors@.contains(
                    p,
                )) ==> exists|k2: int| 0 <= k2 < k && queue@[k2] == p,
            head <= queue@.len(),
            queue@.len() <= n,
        decreases n - head,
    {
        let jx = queue[head];
        head = head + 1;
        let successor_count = jobs[jx].required_for.len();
        let mut t: usize = 0;
        while t < successor_count
            invariant
                n == jobs@.len(),
                n <= MAX_INDEX as int,
                (jx as int) < n,
                successor_count == jobs@[jx as int].required_for@.len(),
                forall|p: int|
                    0 <= p < jobs@.len() ==> (
                    #[trigger] jobs@[p].required_for@).no_duplicates(),
                forall|p: int, k: int|
                    0 <= p < jobs@.len() && 0 <= k < jobs@[p].required_for@.len() ==> ((
                    #[trigger] jobs@[p].required_for@[k]) as int) < jobs@.len(),
                preds_ok(jobs@, n as int),
                forall|p: int, s: int|
                    0 <= p < n && 0 <= s < n ==> ((#[trigger] jobs@[p].required_for@.contains(
                        s as usize,
                    )) <==> (#[trigger] jobs@[s].predecessors@.contains(p as usize))),
                indegree@.len() == n,
                queue@.no_duplicates(),
                forall|k: int| 0 <= k < queue@.len() ==> ((#[trigger] queue@[k]) as int) < n,
                forall|s: int|
                    0 <= s < n ==> (queue@.contains(s as usize) <==> indegree@[s] == 0),
                head >= 1,
                queue@[head as int - 1] == jx,
                forall|s: int|
                    0 <= s < n ==> (#[trigger] indegree@[s]) as int
                        == jobs@[s].predecessors@.len() - count_preds_popped(
                        jobs@[s].predecessors@,
                        queue@.take(head as int - 1),
                        jobs@[s].predecessors@.len() as int,
                    ) - (if jobs@[jx as int].required_for@.take(t as int).contains(s as usize) {
                        1int
                    } else {
                        0int
                    }),
                forall|k: int, p: usize|
                    0 <= k < queue@.len() && (
                    #[trigger] jobs@[queue@[k] as int].predecessors@.contains(p)) ==> exists|
                        k2: int,
                    | 0 <= k2 < k && queue@[k2] == p,
                t <= successor_count,
                head <= queue@.len(),
                queue@.len() <= n,
            decreases successor_count - t,
        {
            let s = jobs[jx].required_for[t];
            let ghost done = queue@.take(head as int - 1);
            let ghost spreds = jobs@[s as int].predecessors@;
            proof {
                assert(jobs@[jx as int].required_for@[t as int] == s);
                assert(jobs@[jx as int].required_for@.contains(s));
                assert((s as int) < n);
                assert((s as int) as usize == s);
                assert((jx as int) as usize == jx);
                assert(jobs@[jx as int].required_for@.contains((s as int) as usize));
                assert(jobs@[s as int].predecessors@.contains((jx as int) as usize));
                assert(spreds.contains(jx));
                if done.contains(jx) {
                    let i = choose|i: int| 0 <= i < done.len() && done[i] == jx;
                    assert(queue@[i] == queue@[head as int - 1]);
                    assert(false);
                }
                if jobs@[jx as int].required_for@.take(t as int).contains(s) {
                    let i = choose|i: int|
                        0 <= i < t && jobs@[jx as int].required_for@.take(t as int)[i] == s;
                    assert(jobs@[jx as int].required_for@[i]
                        == jobs@[jx as int].required_for@[t as int]);
                    assert(false);
                }
                if indegree@[s as int] == 0 {
                    assert(count_preds_popped(spreds, done, spreds.len() as int)
                        == spreds.len());
                    lemma_count_preds_popped_full(spreds, done, spreds.len() as int);
                    let i = choose|i: int| 0 <= i < spreds.len() && spreds[i] == jx;
                    assert(done.contains(spreds[i]));
                    assert(false);
                }
            }
            if indegree[s] > 0 {
                let newdeg = indegree[s] - 1;
                indegree[s] = newdeg;
                if newdeg == 0 {
                    proof {
                        assert(!queue@.contains(s));
                    }
                    let ghost pre = queue@;
                    queue.push(s);
                    proof {
                        lemma_distinct_usizes_bound(queue@, n as int);
                        assert forall|s2: int|
                            0 <= s2 < n implies (queue@.contains(s2 as usize) <==> indegree@[s2]
                            == 0) by {
                            lemma_contains_after_push(pre, s, s2 as usize);
                        }
                        assert(queue@.take(head as int - 1) =~= done);
                        assert(count_preds_popped(spreds, done, spreds.len() as int)
                            == spreds.len() - 1);
                        lemma_count_preds_popped_extend(spreds, done, jx, spreds.len() as int);
                        lemma_count_occurrences(spreds, jx, spreds.len() as int);
                        assert(count_preds_popped(spreds, done.push(jx), spreds.len() as int)
                            == spreds.len());
                        lemma_count_preds_popped_full(spreds, done.push(jx), spreds.len() as int);
                        assert forall|k: int, p: usize|
                            0 <= k < queue@.len() && (
                        #[trigger] jobs@[queue@[k] as int].predecessors@.contains(
                            p,
                        )) implies exists|k2: int| 0 <= k2 < k && queue@[k2] == p by {
                            if k < pre.len() {
                                assert(queue@[k] == pre[k]);
                                assert(jobs@[pre[k] as int].predecessors@.contains(p));
                                let k2 = choose|k2: int| 0 <= k2 < k && pre[k2] == p;
                                assert(queue@[k2] == p);
                            } else {
                                assert(queue@[k] == s);
                                let i = choose|i: int|
                                    0 <= i < spreds.len() && spreds[i] == p;
                                assert(done.push(jx).contains(spreds[i]));
                                lemma_contains_after_push(done, jx, p);
                                if done.contains(p) {
                                    let i2 = choose|i2: int|
                                        0 <= i2 < done.len() && done[i2] == p;
                                    assert(queue@[i2] == p);
                                    assert(i2 < k);
                                } else {
                                    assert(p == jx);
                                    assert(queue@[head as int - 1] == p);
                                    assert(head as int - 1 < k);
                                }
                            }
                        }
                    }
                }
                proof {
                    assert(jobs@[jx as int].required_for@.take(t as int + 1)
                        =~= jobs@[jx as int].required_for@.take(t as int).push(s));
                    assert forall|s2: int|
                        0 <= s2 < n implies (#[trigger] indegree@[s2]) as int
                        == jobs@[s2].predecessors@.len() - count_preds_popped(
                        jobs@[s2].predecessors@,
                        queue@.take(head as int - 1),
                        jobs@[s2].predecessors@.len() as int,
                    ) - (if jobs@[jx as int].required_for@.take(t as int + 1).contains(
                        s2 as usize,
                    ) {
                        1int
                    } else {
                        0int
                    }) by {
                        assert(queue@.take(head as int - 1) =~= done);
                        lemma_contains_after_push(
                            jobs@[jx as int].required_for@.take(t as int),
                            s,
                            s2 as usize,
                        );
                    }
                }
            }
            t = t + 1;
        }
        proof {
            let done = queue@.take(head as int - 1);
            if done.contains(jx) {
                let i = choose|i: int| 0 <= i < done.len() && done[i] == jx;
                assert(queue@[i] == queue@[head as int - 1]);
                assert(false);
            }
            assert(queue@.take(head as int) =~= done.push(jx));
            assert(jobs@[jx as int].required_for@.take(successor_count as int)
                =~= jobs@[jx as int].required_for@);
            assert forall|s2: int|
                0 <= s2 < n implies (#[trigger] indegree@[s2]) as int
                == jobs@[s2].predecessors@.len() - count_preds_popped(
                jobs@[s2].predecessors@,
                queue@.take(head as int),
                jobs@[s2].predecessors@.len() as int,
            ) by {
                let spreds2 = jobs@[s2].predecessors@;
                lemma_count_preds_popped_extend(spreds2, done, jx, spreds2.len() as int);
                lemma_count_occurrences(spreds2, jx, spreds2.len() as int);
                assert((jx as int) as usize == jx);
                if spreds2.contains(jx) {
                    assert(jobs@[s2].predecessors@.contains((jx as int) as usize));
                    assert(jobs@[jx as int].required_for@.contains(s2 as usize));
                }
                if jobs@[jx as int].required_for@.contains(s2 as usize) {
                    assert(jobs@[s2].predecessors@.contains((jx as int) as usize));
                    assert(spreds2.contains(jx));
                }
            }
        }
    }
    let r = queue.len() == n;
    proof {
        if r {
            let order = Seq::new(queue@.len(), |k: int| queue@[k] as int);
            assert(order.len() == jobs@.len());
            assert forall|i: int, j2: int|
                0 <= i < order.len() && 0 <= j2 < order.len() && i != j2 implies order[i]
                != order[j2] by {
                assert(queue@[i] != queue@[j2]);
            }
            assert(order.no_duplicates());
            assert forall|k: int, p: usize|
                0 <= k < order.len() && (#[trigger] jobs@[order[k]].predecessors@.contains(
                    p,
                )) implies exists|k2: int| 0 <= k2 < k && order[k2] == p as int by {
                assert(jobs@[queue@[k] as int].predecessors@.contains(p));
                let k2 = choose|k2: int| 0 <= k2 < k && queue@[k2] == p;
                assert(order[k2] == p as int);
            }
            assert(topo_order_of(jobs@, order));
        } else {
            assert(head == queue@.len());
            assert(queue@.take(head as int) =~= queue@);
            assert forall|s: int|
                0 <= s < n implies (#[trigger] indegree@[s]) as int
                == jobs@[s].predecessors@.len() - count_preds_popped(
                jobs@[s].predecessors@,
                queue@,
                jobs@[s].predecessors@.len() as int,
            ) by {
                assert(count_preds_popped(
                    jobs@[s].predecessors@,
                    queue@.take(head as int),
                    jobs@[s].predecessors@.len() as int,
                ) == count_preds_popped(
                    jobs@[s].predecessors@,
                    queue@,
                    jobs@[s].predecessors@.len() as int,
                ));
            }
            if exists|order: Seq<int>| topo_order_of(jobs@, order) {
                let order = choose|order: Seq<int>| topo_order_of(jobs@, order);
                lemma_kahn_complete(jobs@, queue@, indegree@, order, n as int);
                let oseq = Seq::new(order.len(), |k: int| order[k] as usize);
                assert forall|k1: int, k2: int|
                    0 <= k1 < oseq.len() && 0 <= k2 < oseq.len() && k1 != k2 implies oseq[k1]
                    != oseq[k2] by {
                    assert(order[k1] != order[k2]);
                }
                assert(oseq.no_duplicates());
                assert forall|k: int| 0 <= k < oseq.len() implies queue@.contains(
                    #[trigger] oseq[k],
                ) by {
                    assert(queue@.contains((order[k]) as usize));
                }
                oseq.unique_seq_to_set();
                broadcast use vstd::seq_lib::seq_to_set_is_finite;

                assert(oseq.to_set().subset_of(queue@.to_set()));
                lemma_len_subset(oseq.to_set(), queue@.to_set());
                queue@.lemma_cardinality_of_set();
                assert(false);
            }
        }
    }
    r
}


impl<F> Scheduler<F> {
    /// How many predecessor obligations of job `s` the executions in `log`
    /// have produced: one per entry whose job lists `s` as a successor.
    spec fn spec_obligations(
        self,
        log: Seq<(int, Option<StandardVersionedIndexId>, Result<(), Error>)>,
        s: int,
    ) -> int
        decreases log.len(),
    {
        if log.len() == 0 {
            0
        } else {
            self.spec_obligations(log.drop_last(), s) + (if 0 <= log.last().0
                < self.spec_job_count() && log.last().2 is Ok && self.spec_successors(
                log.last().0,
            ).contains(s as usize) {
                1int
            } else {
                0int
            })
        }
    }

    /// What executions of the predecessors in the first `upto` entries of
    /// `preds` one frame over `viewport_count` viewports owes in total.
    spec fn sum_pred_instances(self, preds: Seq<usize>, upto: int, viewport_count: int) -> int
        decreases upto,
    {
        if upto <= 0 {
            0
        } else {
            self.sum_pred_instances(preds, upto - 1, viewport_count) + (
            if self.spec_per_viewport(preds[upto - 1] as int) {
                viewport_count
            } else {
                1int
            })
        }
    }

    /// Entries of `log` naming the predecessors in the first `upto` entries
    /// of `preds`, counted per predecessor.
    spec fn sum_pred_entries(
        self,
        preds: Seq<usize>,
        upto: int,
        log: Seq<(int, Option<StandardVersionedIndexId>, Result<(), Error>)>,
    ) -> int
        decreases upto,
    {
        if upto <= 0 {
            0
        } else {
            self.sum_pred_entries(preds, upto - 1, log) + entries_of(log, preds[upto
                - 1] as int)
        }
    }

    /// The split dependency counts weigh out to the summed instance counts.
    proof fn lemma_total_as_sum(
        self,
        preds: Seq<usize>,
        upto: int,
        viewport_count: int,
    )
        requires
            0 <= upto <= preds.len(),
            0 <= viewport_count,
            forall|t: int| 0 <= t < preds.len() ==> ((#[trigger] preds[t]) as int) < self.spec_job_count(),
        ensures
            self.sum_pred_instances(preds, upto, viewport_count) == count_preds_regular(
                self.jobs@,
                preds,
                upto,
            ) + count_preds_per_viewport(self.jobs@, preds, upto) * viewport_count,
        decreases upto,
    {
        if upto > 0 {
            self.lemma_total_as_sum(preds, upto - 1, viewport_count);
            let c = count_preds_per_viewport(self.jobs@, preds, upto - 1);
            if self.spec_per_viewport(preds[upto - 1] as int) {
                assert((c + 1) * viewport_count == c * viewport_count + viewport_count)
                    by (nonlinear_arith);
            }
        }
    }

    /// Obligations of `s` split into per-predecessor entry counts, for a
    /// log of successful executions of jobs of this graph.
    proof fn lemma_obligations_split(
        self,
        log: Seq<(int, Option<StandardVersionedIndexId>, Result<(), Error>)>,
        s: usize,
    )
        requires
            self.graph_wf(),
            (s as int) < self.spec_job_count(),
            forall|k: int|
                0 <= k < log.len() ==> 0 <= (#[trigger] log[k]).0 < self.spec_job_count() && log[k].2 is Ok,
        ensures
            self.spec_obligations(log, s as int) == self.sum_pred_entries(
                self.spec_predecessors(s as int),
                self.spec_predecessors(s as int).len() as int,
                log,
            ),
        decreases log.len(),
    {
        let preds = self.spec_predecessors(s as int);
        if log.len() == 0 {
            self.lemma_sum_pred_entries_empty(preds, preds.len() as int, log);
        } else {
            let prev = log.drop_last();
            assert forall|k: int|
                0 <= k < prev.len() implies 0 <= (#[trigger] prev[k]).0 < self.spec_job_count()
                && prev[k].2 is Ok by {
                assert(prev[k] == log[k]);
            }
            self.lemma_obligations_split(prev, s);
            let e = log.last();
            assert(log =~= prev.push(e));
            self.lemma_sum_pred_entries_push(preds, preds.len() as int, prev, e);
            assert(self.job_wf(s as int, self.spec_job_count()));
            lemma_count_occurrences(preds, (e.0) as usize, preds.len() as int);
            self.lemma_mirror((e.0) as usize, s);
            assert((e.0 as usize) as int == e.0);
            if self.spec_successors(e.0).contains(s) {
                assert(preds.contains((e.0) as usize));
                let t = choose|t: int| 0 <= t < preds.len() && preds[t] == (e.0) as usize;
                assert(count_occurrences(preds, (e.0) as usize, preds.len() as int) == 1);
            } else {
                if exists|t: int|
                    0 <= t < preds.len() && preds[t] == (e.0) as usize {
                    assert(preds.contains((e.0) as usize));
                }
                assert(count_occurrences(preds, (e.0) as usize, preds.len() as int) == 0);
            }
        }
    }

    /// The per-predecessor sum over an empty log is zero.
    proof fn lemma_sum_pred_entries_empty(
        self,
        preds: Seq<usize>,
        upto: int,
        log: Seq<(int, Option<StandardVersionedIndexId>, Result<(), Error>)>,
    )
        requires
            0 <= upto,
            log.len() == 0,
        ensures
            self.sum_pred_entries(preds, upto, log) == 0,
        decreases upto,
    {
        if upto > 0 {
            self.lemma_sum_pred_entries_empty(preds, upto - 1, log);
        }
    }

    /// Appending one execution raises the per-predecessor sum by the number
    /// of times its job occurs among the predecessors.
    proof fn lemma_sum_pred_entries_push(
        self,
        preds: Seq<usize>,
        upto: int,
        log: Seq<(int, Option<StandardVersionedIndexId>, Result<(), Error>)>,
        e: (int, Option<StandardVersionedIndexId>, Result<(), Error>),
    )
        requires
            0 <= upto <= preds.len(),
        ensures
            self.sum_pred_entries(preds, upto, log.push(e)) == self.sum_pred_entries(
                preds,
                upto,
                log,
            ) + count_occurrences(preds, (e.0) as usize, upto) * (if ((e.0) as usize) as int
                == e.0 {
                1int
            } else {
                0int
            }),
        decreases upto,
    {
        if upto > 0 {
            self.lemma_sum_pred_entries_push(preds, upto - 1, log, e);
            assert(log.push(e).drop_last() =~= log);
            assert(log.push(e).last() == e);
            let c = count_occurrences(preds, (e.0) as usize, upto - 1);
            let sel: int = if ((e.0) as usize) as int == e.0 {
                1int
            } else {
                0int
            };
            if preds[upto - 1] == (e.0) as usize {
                assert((c + 1) * sel == c * sel + sel) by (nonlinear_arith);
                if sel == 1 {
                    assert(entries_of(log.push(e), preds[upto - 1] as int) == entries_of(
                        log,
                        preds[upto - 1] as int,
                    ) + 1);
                } else {
                    assert(entries_of(log.push(e), preds[upto - 1] as int) == entries_of(
                        log,
                        preds[upto - 1] as int,
                    ));
                }
            } else {
                if (preds[upto - 1] as int) == e.0 {
                    assert(((e.0) as usize) as int != e.0);
                    assert(entries_of(log.push(e), preds[upto - 1] as int) == entries_of(
                        log,
                        preds[upto - 1] as int,
                    ) + 1);
                    assert(false);
                }
                assert(entries_of(log.push(e), preds[upto - 1] as int) == entries_of(
                    log,
                    preds[upto - 1] as int,
                ));
            }
        }
    }

    /// When the summed entry counts reach the summed instance counts and no
    /// single count exceeds its bound, each count meets its bound exactly.
    proof fn lemma_sum_forces_each(
        self,
        preds: Seq<usize>,
        upto: int,
        viewport_count: int,
        log: Seq<(int, Option<StandardVersionedIndexId>, Result<(), Error>)>,
    )
        requires
            0 <= upto <= preds.len(),
            0 <= viewport_count,
            forall|t: int|
                0 <= t < upto ==> entries_of(log, (#[trigger] preds[t]) as int) <= (
                if self.spec_per_viewport(preds[t] as int) {
                    viewport_count
                } else {
                    1int
                }),
            self.sum_pred_entries(preds, upto, log) == self.sum_pred_instances(
                preds,
                upto,
                viewport_count,
            ),
        ensures
            forall|t: int|
                0 <= t < upto ==> entries_of(log, (#[trigger] preds[t]) as int) == (
                if self.spec_per_viewport(preds[t] as int) {
                    viewport_count
                } else {
                    1int
                }),
        decreases upto,
    {
        if upto > 0 {
            self.lemma_sum_bounded(preds, upto - 1, viewport_count, log);
            self.lemma_sum_forces_each(preds, upto - 1, viewport_count, log);
        }
    }

    /// The summed entry counts never exceed the summed instance counts.
    proof fn lemma_sum_bounded(
        self,
        preds: Seq<usize>,
        upto: int,
        viewport_count: int,
        log: Seq<(int, Option<StandardVersionedIndexId>, Result<(), Error>)>,
    )
        requires
            0 <= upto <= preds.len(),
            0 <= viewport_count,
            forall|t: int|
                0 <= t < upto ==> entries_of(log, (#[trigger] preds[t]) as int) <= (
                if self.spec_per_viewport(preds[t] as int) {
                    viewport_count
                } else {
                    1int
                }),
        ensures
            self.sum_pred_entries(preds, upto, log) <= self.sum_pred_instances(
                preds,
                upto,
                viewport_count,
            ),
        decreases upto,
    {
        if upto > 0 {
            self.lemma_sum_bounded(preds, upto - 1, viewport_count, log);
        }
    }

    /// The instances the first `upto` jobs contribute to a frame over
    /// `snapshot`.
    spec fn spec_instances_prefix(
        self,
        snapshot: Seq<StandardVersionedIndexId>,
        upto: int,
    ) -> Seq<(int, Option<StandardVersionedIndexId>)>
        decreases upto,
    {
        if upto <= 0 {
            Seq::empty()
        } else {
            self.spec_instances_prefix(snapshot, upto - 1) + job_instances(
                upto - 1,
                self.spec_per_viewport(upto - 1),
                snapshot,
            )
        }
    }

    /// A frame over `snapshot` owes exactly as many executions as there are
    /// instances.
    proof fn lemma_instances_len(self, snapshot: Seq<StandardVersionedIndexId>, upto: int)
        requires
            0 <= upto,
        ensures
            self.spec_instances_prefix(snapshot, upto).len() == self.count_regular_prefix(upto)
                + self.count_per_viewport_prefix(upto) * snapshot.len(),
        decreases upto,
    {
        if upto > 0 {
            self.lemma_instances_len(snapshot, upto - 1);
            let v = snapshot.len() as int;
            let c = self.count_per_viewport_prefix(upto - 1);
            if self.spec_per_viewport(upto - 1) {
                assert((c + 1) * v == c * v + v) by (nonlinear_arith);
            }
        }
    }

    /// An entry is an instance exactly when it names a job below `upto`,
    /// fans out exactly when that job does, and draws its viewport from the
    /// snapshot.
    proof fn lemma_instances_contains(
        self,
        snapshot: Seq<StandardVersionedIndexId>,
        upto: int,
        entry: (int, Option<StandardVersionedIndexId>),
    )
        requires
            0 <= upto,
        ensures
            self.spec_instances_prefix(snapshot, upto).contains(entry) <==> (0 <= entry.0
                < upto && (entry.1 is Some <==> self.spec_per_viewport(entry.0)) && (entry.1
                is Some ==> snapshot.contains(entry.1.unwrap()))),
        decreases upto,
    {
        if upto > 0 {
            self.lemma_instances_contains(snapshot, upto - 1, entry);
            let prev = self.spec_instances_prefix(snapshot, upto - 1);
            let tail = job_instances(upto - 1, self.spec_per_viewport(upto - 1), snapshot);
            let cur = self.spec_instances_prefix(snapshot, upto);
            if cur.contains(entry) {
                let k = choose|k: int| 0 <= k < cur.len() && cur[k] == entry;
                if k < prev.len() {
                    assert(prev[k] == entry);
                    assert(prev.contains(entry));
                } else {
                    assert(tail[k - prev.len()] == entry);
                    if self.spec_per_viewport(upto - 1) {
                        assert(snapshot.contains(entry.1.unwrap())) by {
                            assert(entry.1 == Some(snapshot[k - prev.len()]));
                            assert(snapshot[k - prev.len()] == entry.1.unwrap());
                        }
                    }
                }
            }
            if 0 <= entry.0 < upto && (entry.1 is Some <==> self.spec_per_viewport(entry.0))
                && (entry.1 is Some ==> snapshot.contains(entry.1.unwrap())) {
                if entry.0 < upto - 1 {
                    let k = choose|k: int| 0 <= k < prev.len() && prev[k] == entry;
                    assert(cur[k] == entry);
                } else {
                    if self.spec_per_viewport(upto - 1) {
                        let v = choose|v: int|
                            0 <= v < snapshot.len() && snapshot[v] == entry.1.unwrap();
                        assert(tail[v] == entry);
                        assert(cur[prev.len() + v] == entry);
                    } else {
                        assert(tail[0] == entry);
                        assert(cur[prev.len() as int] == entry);
                    }
                }
            }
        }
    }

    /// No instance appears twice.
    proof fn lemma_instances_distinct(
        self,
        snapshot: Seq<StandardVersionedIndexId>,
        upto: int,
    )
        requires
            0 <= upto,
            snapshot.no_duplicates(),
        ensures
            self.spec_instances_prefix(snapshot, upto).no_duplicates(),
            forall|k: int|
                0 <= k < self.spec_instances_prefix(snapshot, upto).len() ==> (
                #[trigger] self.spec_instances_prefix(snapshot, upto)[k]).0 < upto,
        decreases upto,
    {
        if upto > 0 {
            self.lemma_instances_distinct(snapshot, upto - 1);
            let prev = self.spec_instances_prefix(snapshot, upto - 1);
            let tail = job_instances(upto - 1, self.spec_per_viewport(upto - 1), snapshot);
            let cur = self.spec_instances_prefix(snapshot, upto);
            assert forall|k1: int, k2: int| 0 <= k1 < k2 < cur.len() implies cur[k1]
                != cur[k2] by {
                if k1 < prev.len() && k2 < prev.len() {
                    assert(cur[k1] == prev[k1] && cur[k2] == prev[k2]);
                } else if k1 < prev.len() {
                    assert(cur[k1] == prev[k1]);
                    assert(cur[k1].0 < upto - 1);
                    assert(cur[k2] == tail[k2 - prev.len()]);
                } else {
                    assert(cur[k1] == tail[k1 - prev.len()]);
                    assert(cur[k2] == tail[k2 - prev.len()]);
                    assert(self.spec_per_viewport(upto - 1));
                    assert(snapshot[k1 - prev.len()] != snapshot[k2 - prev.len()]);
                }
            }
        }
    }

    /// Obligation counting reads only the graph, which agreeing schedulers
    /// share.
    proof fn lemma_obligations_same_graph(
        a: Self,
        b: Self,
        log: Seq<(int, Option<StandardVersionedIndexId>, Result<(), Error>)>,
        s: int,
    )
        requires
            a.same_graph(b),
        ensures
            a.spec_obligations(log, s) == b.spec_obligations(log, s),
        decreases log.len(),
    {
        if log.len() > 0 {
            Self::lemma_obligations_same_graph(a, b, log.drop_last(), s);
            if 0 <= log.last().0 < a.spec_job_count() {
                assert(a.spec_job_id(log.last().0) == b.spec_job_id(log.last().0));
                assert(a.spec_successors(log.last().0) == b.spec_successors(log.last().0));
            }
        }
    }

    /// A queue of distinct valid entries never outgrows the frame's owed
    /// executions.
    proof fn lemma_queue_bound(
        self,
        snapshot: Seq<StandardVersionedIndexId>,
        queue: Seq<ScheduledJob>,
    )
        requires
            snapshot.no_duplicates(),
            forall|k: int| 0 <= k < queue.len() ==> self.entry_ok(#[trigger] queue[k], snapshot),
            forall|k1: int, k2: int|
                0 <= k1 < k2 < queue.len() ==> !(queue[k1].job_index == queue[k2].job_index
                    && queue[k1].viewport == queue[k2].viewport),
        ensures
            queue.len() <= self.spec_expected_executions(snapshot.len() as int),
    {
        let n = self.spec_job_count();
        let pairs = Seq::new(
            queue.len(),
            |q: int| (queue[q].job_index as int, queue[q].viewport),
        );
        let insts = self.spec_instances_prefix(snapshot, n);
        self.lemma_instances_len(snapshot, n);
        self.lemma_instances_distinct(snapshot, n);
        assert forall|k: int| 0 <= k < pairs.len() implies insts.contains(
            #[trigger] pairs[k],
        ) by {
            assert(self.entry_ok(queue[k], snapshot));
            self.lemma_instances_contains(snapshot, n, pairs[k]);
        }
        assert forall|k1: int, k2: int| 0 <= k1 < k2 < pairs.len() implies pairs[k1]
            != pairs[k2] by {
            assert(!(queue[k1].job_index == queue[k2].job_index && queue[k1].viewport
                == queue[k2].viewport));
        }
        assert(pairs.no_duplicates());
        pairs.unique_seq_to_set();
        broadcast use vstd::seq_lib::seq_to_set_is_finite;

        assert(pairs.to_set().subset_of(insts.to_set()));
        lemma_len_subset(pairs.to_set(), insts.to_set());
        insts.lemma_cardinality_of_set();
    }

    /// One job's entries in a log of distinct valid instances number at
    /// most its owed executions; when they reach that number, every owed
    /// instance of the job appears.
    proof fn lemma_job_entries(
        self,
        log: Seq<(int, Option<StandardVersionedIndexId>, Result<(), Error>)>,
        p: usize,
        snapshot: Seq<StandardVersionedIndexId>,
    )
        requires
            snapshot.no_duplicates(),
            (p as int) < self.spec_job_count(),
            forall|k1: int, k2: int|
                0 <= k1 < k2 < log.len() ==> !(log[k1].0 == log[k2].0 && log[k1].1
                    == log[k2].1),
            forall|k: int|
                0 <= k < log.len() && (#[trigger] log[k]).0 == p as int ==> (log[k].1 is Some
                    <==> self.spec_per_viewport(p as int)) && (log[k].1 is Some
                    ==> snapshot.contains(log[k].1.unwrap())),
        ensures
            entries_of(log, p as int) <= (if self.spec_per_viewport(p as int) {
                snapshot.len() as int
            } else {
                1int
            }),
            entries_of(log, p as int) == (if self.spec_per_viewport(p as int) {
                snapshot.len() as int
            } else {
                1int
            }) ==> {
                &&& (!self.spec_per_viewport(p as int) ==> exists|k: int|
                    0 <= k < log.len() && log[k].0 == p as int && log[k].1
                        is None)
                &&& (self.spec_per_viewport(p as int) ==> forall|v: StandardVersionedIndexId|
                    snapshot.contains(v) ==> exists|k: int|
                        0 <= k < log.len() && (#[trigger] log[k]).0 == p as int && log[k].1
                            == Some(v))
            },
    {
        let pv = self.spec_per_viewport(p as int);
        lemma_pairs_of_job(log, p as int);
        let pairs = pairs_of_job(log, p as int);
        let insts = job_instances(p as int, pv, snapshot);
        lemma_job_instances_distinct(p as int, pv, snapshot);
        assert forall|i: int| 0 <= i < pairs.len() implies insts.contains(
            #[trigger] pairs[i],
        ) by {
            assert(pairs.contains(pairs[i]));
            let x = pairs[i];
            let k = choose|k: int| 0 <= k < log.len() && log[k].0 == p as int && log[k].1 == x.1;
            if pv {
                let vx = choose|vx: int|
                    0 <= vx < snapshot.len() && snapshot[vx] == x.1.unwrap();
                assert(insts[vx] == x);
            } else {
                assert(insts[0] == x);
            }
        }
        pairs.unique_seq_to_set();
        insts.unique_seq_to_set();
        broadcast use vstd::seq_lib::seq_to_set_is_finite;

        assert(pairs.to_set().subset_of(insts.to_set()));
        lemma_len_subset(pairs.to_set(), insts.to_set());
        if entries_of(log, p as int) == (if pv {
            snapshot.len() as int
        } else {
            1int
        }) {
            lemma_subset_equal_card(pairs.to_set(), insts.to_set());
            if !pv {
                let x = (p as int, None::<StandardVersionedIndexId>);
                assert(insts[0] == x);
                assert(insts.contains(x));
                assert(insts.to_set().contains(x));
                assert(pairs.to_set().contains(x));
                assert(pairs.contains(x));
            } else {
                assert forall|v: StandardVersionedIndexId| snapshot.contains(v) implies exists|
                    k: int,
                |
                    0 <= k < log.len() && (#[trigger] log[k]).0 == p as int && log[k].1
                        == Some(v) by {
                    let vx = choose|vx: int| 0 <= vx < snapshot.len() && snapshot[vx] == v;
                    let x = (p as int, Some(v));
                    assert(insts[vx] == x);
                    assert(insts.contains(x));
                    assert(insts.to_set().contains(x));
                    assert(pairs.to_set().contains(x));
                    assert(pairs.contains(x));
                    let k = choose|k: int|
                        0 <= k < log.len() && log[k].0 == p as int && log[k].1 == x.1;
                }
            }
        }
    }

    /// A scheduler whose jobs differ from a well-formed one's only in the
    /// `dependencies_finished` counters has the same well-formed graph.
    /// When every owed instance of job `p` appears in a log of distinct
    /// valid instances, its entry count is exactly the owed number.
    proof fn lemma_job_entries_complete(
        self,
        log: Seq<(int, Option<StandardVersionedIndexId>, Result<(), Error>)>,
        p: usize,
        snapshot: Seq<StandardVersionedIndexId>,
    )
        requires
            snapshot.no_duplicates(),
            (p as int) < self.spec_job_count(),
            forall|k1: int, k2: int|
                0 <= k1 < k2 < log.len() ==> !(log[k1].0 == log[k2].0 && log[k1].1
                    == log[k2].1),
            forall|k: int|
                0 <= k < log.len() && (#[trigger] log[k]).0 == p as int ==> (log[k].1 is Some
                    <==> self.spec_per_viewport(p as int)) && (log[k].1 is Some
                    ==> snapshot.contains(log[k].1.unwrap())),
            self.spec_per_viewport(p as int) ==> forall|vx: int|
                0 <= vx < snapshot.len() ==> instance_logged(
                    log,
                    p as int,
                    Some(#[trigger] snapshot[vx]),
                ),
            !self.spec_per_viewport(p as int) ==> instance_logged(log, p as int, None),
        ensures
            entries_of(log, p as int) == (if self.spec_per_viewport(p as int) {
                snapshot.len() as int
            } else {
                1int
            }),
    {
        self.lemma_job_entries(log, p, snapshot);
        lemma_pairs_of_job(log, p as int);
        let pairs = pairs_of_job(log, p as int);
        let pv = self.spec_per_viewport(p as int);
        let insts = job_instances(p as int, pv, snapshot);
        lemma_job_instances_distinct(p as int, pv, snapshot);
        assert forall|i: int| 0 <= i < insts.len() implies pairs.contains(
            #[trigger] insts[i],
        ) by {
            if pv {
                assert(instance_logged(log, p as int, Some(snapshot[i])));
                let k = choose|k: int|
                    0 <= k < log.len() && (#[trigger] log[k]).0 == p as int && log[k].1 == Some(
                        snapshot[i],
                    );
                assert(pairs.contains((p as int, Some(snapshot[i]))));
                assert(insts[i] == (p as int, Some(snapshot[i])));
            } else {
                assert(instance_logged(log, p as int, None));
                let k = choose|k: int|
                    0 <= k < log.len() && (#[trigger] log[k]).0 == p as int && log[k].1
                        is None;
                assert(log[k].1 == None::<StandardVersionedIndexId>);
                assert(pairs.contains((p as int, None::<StandardVersionedIndexId>)));
                assert(insts[i] == (p as int, None::<StandardVersionedIndexId>));
            }
        }
        pairs.unique_seq_to_set();
        insts.unique_seq_to_set();
        broadcast use vstd::seq_lib::seq_to_set_is_finite;

        assert(insts.to_set().subset_of(pairs.to_set()));
        lemma_len_subset(insts.to_set(), pairs.to_set());
    }

    /// With every predecessor fully logged, the per-predecessor entry sum
    /// equals the owed instance sum.
    proof fn lemma_sum_entries_full(
        self,
        preds: Seq<usize>,
        upto: int,
        log: Seq<(int, Option<StandardVersionedIndexId>, Result<(), Error>)>,
        vcount: int,
    )
        requires
            0 <= upto <= preds.len(),
            forall|t: int|
                0 <= t < preds.len() ==> entries_of(log, (#[trigger] preds[t]) as int) == (
                if self.spec_per_viewport(preds[t] as int) {
                    vcount
                } else {
                    1int
                }),
        ensures
            self.sum_pred_entries(preds, upto, log) == self.sum_pred_instances(
                preds,
                upto,
                vcount,
            ),
        decreases upto,
    {
        if upto > 0 {
            self.lemma_sum_entries_full(preds, upto - 1, log, vcount);
        }
    }

    /// With at least one viewport every predecessor owes at least one
    /// execution.
    proof fn lemma_sum_instances_lower(self, preds: Seq<usize>, upto: int, vcount: int)
        requires
            0 <= upto <= preds.len(),
            vcount >= 1,
        ensures
            self.sum_pred_instances(preds, upto, vcount) >= upto,
        decreases upto,
    {
        if upto > 0 {
            self.lemma_sum_instances_lower(preds, upto - 1, vcount);
        }
    }

    /// Once the ready queue has drained without an error, a graph that
    /// admits a topological order has released every job along it.
    proof fn lemma_frame_complete(
        self,
        log: Seq<(int, Option<StandardVersionedIndexId>, Result<(), Error>)>,
        snapshot: Seq<StandardVersionedIndexId>,
        enqueued: Seq<bool>,
        order: Seq<int>,
        k: int,
    )
        requires
            self.graph_wf(),
            self.spec_topological_order(order),
            snapshot.no_duplicates(),
            snapshot.len() >= 1,
            0 <= k <= order.len(),
            enqueued.len() == self.spec_job_count(),
            forall|j: int|
                0 <= j < self.spec_job_count() ==> ((#[trigger] enqueued[j]) <==> (
                self.spec_is_root(j) || (self.spec_total_obligations(j, snapshot.len() as int)
                    > 0 && self.spec_obligations(log, j) >= self.spec_total_obligations(
                    j,
                    snapshot.len() as int,
                )))),
            forall|k1: int, k2: int|
                0 <= k1 < k2 < log.len() ==> !(log[k1].0 == log[k2].0 && log[k1].1
                    == log[k2].1),
            forall|k2: int|
                0 <= k2 < log.len() ==> 0 <= (#[trigger] log[k2]).0 < self.spec_job_count()
                    && log[k2].2 is Ok && (log[k2].1 is Some <==> self.spec_per_viewport(
                    log[k2].0,
                )) && (log[k2].1 is Some ==> snapshot.contains(log[k2].1.unwrap())),
            forall|j: int, vx: int|
                0 <= j < self.spec_job_count() && (#[trigger] enqueued[j])
                    && self.spec_per_viewport(j) && 0 <= vx < snapshot.len()
                    ==> instance_logged(log, j, Some(#[trigger] snapshot[vx])),
            forall|j: int|
                0 <= j < self.spec_job_count() && (#[trigger] enqueued[j])
                    && !self.spec_per_viewport(j) ==> instance_logged(log, j, None),
        ensures
            forall|i: int| 0 <= i < k ==> enqueued[#[trigger] order[i]],
        decreases k,
    {
        if k > 0 {
            self.lemma_frame_complete(log, snapshot, enqueued, order, k - 1);
            let s2 = order[k - 1];
            assert(0 <= s2 < self.spec_job_count());
            if !enqueued[s2] {
                assert(!self.spec_is_root(s2));
                let preds = self.spec_predecessors(s2);
                assert(preds.len() > 0);
                let vcount = snapshot.len() as int;
                assert(self.job_wf(s2, self.spec_job_count()));
                assert forall|t: int|
                    0 <= t < preds.len() implies entries_of(log, (#[trigger] preds[t]) as int)
                    == (if self.spec_per_viewport(preds[t] as int) {
                    vcount
                } else {
                    1int
                }) by {
                    let p = preds[t];
                    assert(self.spec_predecessors(order[k - 1]).contains(p));
                    let k2 = choose|k2: int| 0 <= k2 < k - 1 && order[k2] == p as int;
                    assert(enqueued[p as int]);
                    self.lemma_job_entries_complete(log, p, snapshot);
                }
                self.lemma_obligations_split(log, s2 as usize);
                assert(((s2 as usize) as int) == s2);
                self.lemma_sum_entries_full(preds, preds.len() as int, log, vcount);
                self.lemma_total_as_sum(preds, preds.len() as int, vcount);
                assert(self.spec_total_obligations(s2, vcount) == self.sum_pred_instances(
                    preds,
                    preds.len() as int,
                    vcount,
                ));
                self.lemma_sum_instances_lower(preds, preds.len() as int, vcount);
                assert(self.spec_obligations(log, s2) == self.spec_total_obligations(
                    s2,
                    vcount,
                ));
                assert(self.spec_total_obligations(s2, vcount) > 0);
                assert(enqueued[s2]);
                assert(false);
            }
        }
    }

    proof fn lemma_same_fields_graph(self, other: Self)
        requires
            other.graph_wf(),
            self.jobs@.len() == other.jobs@.len(),
            self.jobs_without_dependencies@ == other.jobs_without_dependencies@,
            self.regular_job_count == other.regular_job_count,
            self.per_viewport_job_count == other.per_viewport_job_count,
            forall|j: int|
                0 <= j < self.jobs@.len() ==> {
                    let a = #[trigger] self.jobs@[j];
                    let b = other.jobs@[j];
                    &&& a.id == b.id
                    &&& a.function == b.function
                    &&& a.executed_per_viewport == b.executed_per_viewport
                    &&& a.required_for@ == b.required_for@
                    &&& a.predecessors@ == b.predecessors@
                    &&& a.regular_dependency_count == b.regular_dependency_count
                    &&& a.per_viewport_dependency_count == b.per_viewport_dependency_count
                },
        ensures
            self.graph_wf(),
            self.same_graph(other),
    {
        let n2 = self.jobs@.len() as int;
        assert forall|jx: int| 0 <= jx < n2 implies self.job_wf(jx, n2) by {
            assert(other.job_wf(jx, n2));
            assert(self.jobs@[jx].required_for@ == other.jobs@[jx].required_for@);
            assert(self.jobs@[jx].predecessors@ == other.jobs@[jx].predecessors@);
            lemma_preds_counts_congruent(
                self.jobs@,
                other.jobs@,
                self.jobs@[jx].predecessors@,
                self.jobs@[jx].predecessors@.len() as int,
            );
        }
        assert forall|p: int, s2: int|
            0 <= p < n2 && 0 <= s2 < n2 implies (self.spec_successors(p).contains(s2 as usize)
            <==> self.spec_predecessors(s2).contains(p as usize)) by {
            assert(self.spec_successors(p) == other.spec_successors(p));
            assert(self.spec_predecessors(s2) == other.spec_predecessors(s2));
        }
        assert forall|jx: int|
            0 <= jx < n2 implies (self.jobs_without_dependencies@.contains(jx as usize)
            <==> self.spec_is_root(jx)) by {
            assert(other.jobs_without_dependencies@.contains(jx as usize) <==> other.spec_is_root(
                jx,
            ));
            assert(self.spec_predecessors(jx) == other.spec_predecessors(jx));
        }
        assert(self.graph_wf());
        assert forall|j: int|
            0 <= j < self.spec_job_count() implies {
            &&& #[trigger] self.spec_job_id(j) == other.spec_job_id(j)
            &&& self.spec_function(j) == other.spec_function(j)
            &&& self.spec_per_viewport(j) == other.spec_per_viewport(j)
            &&& self.spec_successors(j) == other.spec_successors(j)
            &&& self.spec_predecessors(j) == other.spec_predecessors(j)
            &&& self.spec_regular_dependency_count(j) == other.spec_regular_dependency_count(j)
            &&& self.spec_per_viewport_dependency_count(j)
                == other.spec_per_viewport_dependency_count(j)
        } by {
            assert(self.jobs@[j].id == other.jobs@[j].id);
        }
    }

    /// Graph agreement is transitive.
    proof fn lemma_same_graph_trans(a: Self, b: Self, c: Self)
        requires
            a.same_graph(b),
            b.same_graph(c),
        ensures
            a.same_graph(c),
    {
        assert(a.spec_job_count() == c.spec_job_count());
        assert(a.spec_regular_job_count() == c.spec_regular_job_count());
        assert(a.spec_per_viewport_job_count() == c.spec_per_viewport_job_count());
        assert forall|j: int|
            0 <= j < a.spec_job_count() implies {
            &&& #[trigger] a.spec_job_id(j) == c.spec_job_id(j)
            &&& a.spec_function(j) == c.spec_function(j)
            &&& a.spec_per_viewport(j) == c.spec_per_viewport(j)
            &&& a.spec_successors(j) == c.spec_successors(j)
            &&& a.spec_predecessors(j) == c.spec_predecessors(j)
            &&& a.spec_regular_dependency_count(j) == c.spec_regular_dependency_count(j)
            &&& a.spec_per_viewport_dependency_count(j) == c.spec_per_viewport_dependency_count(j)
        } by {
            assert(a.spec_job_id(j) == b.spec_job_id(j));
            assert(b.spec_job_id(j) == c.spec_job_id(j));
        }
    }

    /// The mirror fact of [`Self::graph_wf`], instantiated at one edge.
    proof fn lemma_mirror(self, p: usize, s: usize)
        requires
            self.graph_wf(),
            (p as int) < self.spec_job_count(),
            (s as int) < self.spec_job_count(),
        ensures
            self.spec_successors(p as int).contains(s) <==> self.spec_predecessors(
                s as int,
            ).contains(p),
    {
        assert(((s as int) as usize) == s);
        assert(((p as int) as usize) == p);
    }

    /// Bounds on one job's lists and counts, from [`Self::graph_wf`].
    proof fn lemma_job_bounds(self, j: int)
        requires
            self.graph_wf(),
            0 <= j < self.spec_job_count(),
        ensures
            self.spec_predecessors(j).len() <= self.spec_job_count(),
            0 <= self.spec_regular_dependency_count(j) <= self.spec_job_count(),
            0 <= self.spec_per_viewport_dependency_count(j) <= self.spec_job_count(),
            forall|t: int|
                0 <= t < self.spec_successors(j).len() ==> ((#[trigger] self.spec_successors(
                    j,
                )[t]) as int) < self.spec_job_count(),
    {
        assert(self.job_wf(j, self.spec_job_count()));
        lemma_distinct_usizes_bound(self.jobs@[j].predecessors@, self.spec_job_count());
        lemma_preds_counts_sum(
            self.jobs@,
            self.jobs@[j].predecessors@,
            self.jobs@[j].predecessors@.len() as int,
        );
    }

    /// Builds the job graph for one kind from the registry and fails fast
    /// on a cyclic dependency.
    #[verifier::rlimit(100)]
    pub fn new(registry: &JobRegistry<F>, kind: JobKind) -> (r: Result<Self, Error>) where
        F: Copy,

        requires
            registry.wf(),
        ensures
            match r {
                Ok(s) => {
                    &&& s.wf()
                    &&& s.spec_last_run() == Seq::<
                        (int, Option<StandardVersionedIndexId>, Result<(), Error>),
                    >::empty()
                    &&& forall|j: int|
                        0 <= j < s.spec_job_count() ==> {
                            let source = registry.spec_job(#[trigger] s.spec_job_id(j));
                            &&& source is Some
                            &&& source.unwrap().spec_kind() == kind
                            &&& source.unwrap().spec_function() == s.spec_function(j)
                            &&& source.unwrap().spec_per_viewport() == s.spec_per_viewport(j)
                        }
                    &&& forall|j1: int, j2: int|
                        0 <= j1 < j2 < s.spec_job_count() ==> s.spec_job_id(j1) != s.spec_job_id(
                            j2,
                        )
                    &&& forall|id: StandardVersionedIndexId|
                        (#[trigger] registry.spec_job(id)) is Some && registry.spec_job(
                            id,
                        ).unwrap().spec_kind() == kind ==> exists|j: int|
                            0 <= j < s.spec_job_count() && s.spec_job_id(j) == id
                    &&& forall|j: int, p: int|
                        0 <= j < s.spec_job_count() && 0 <= p < s.spec_job_count() ==> ((
                        #[trigger] s.spec_predecessors(j).contains(p as usize))
                            <==> registry.spec_job(
                            s.spec_job_id(j),
                        ).unwrap().spec_dependencies().contains(s.spec_job_id(p)))
                    &&& exists|order: Seq<int>| s.spec_topological_order(order)
                    &&& exists|order: Seq<StandardVersionedIndexId>| registry_topological_order(
                        *registry,
                        kind,
                        order,
                    )
                },
                Err(e) => e.spec_message() == "cyclic job dependency"@ && !exists|
                    order: Seq<StandardVersionedIndexId>,
                | registry_topological_order(*registry, kind, order),
            },
    {
        proof {
            registry.lemma_bounds();
            registry.lemma_live_ids_complete();
        }
        let pairs = registry.jobs();
        let mut jobs: Vec<JobState<F>> = Vec::new();
        let mut lookup: Vec<Option<usize>> = Vec::new();
        let mut source_of: Vec<usize> = Vec::new();
        let mut regular_job_count: u64 = 0;
        let mut per_viewport_job_count: u64 = 0;
        let mut k: usize = 0;
        while k < pairs.len()
            invariant
                registry.wf(),
                pairs@.len() <= MAX_INDEX as int,
                forall|i: int|
                    0 <= i < pairs@.len() ==> registry.spec_job((#[trigger] pairs@[i]).0)
                        == Some(*pairs@[i].1) && pairs@[i].1.wf(),
                k <= pairs@.len(),
                jobs@.len() <= k,
                regular_job_count + per_viewport_job_count == jobs@.len(),
                sources_ok(jobs@, pairs@, source_of@, kind),
                forall|i1: int, i2: int|
                    0 <= i1 < i2 < pairs@.len() ==> (#[trigger] pairs@[i1]).0.spec_index() < (
                    #[trigger] pairs@[i2]).0.spec_index(),
                forall|j2: int|
                    0 <= j2 < source_of@.len() ==> (#[trigger] source_of@[j2]) < k,
                forall|a: int, b: int|
                    0 <= a < b < source_of@.len() ==> (#[trigger] source_of@[a]) < (
                    #[trigger] source_of@[b]),
                forall|i: int|
                    0 <= i < k && (#[trigger] pairs@[i]).1.spec_kind() == kind ==> exists|jx: int|
                        0 <= jx < source_of@.len() && source_of@[jx] as int == i,
                forall|j2: int|
                    0 <= j2 < jobs@.len() ==> (#[trigger] jobs@[j2]).predecessors@.len() == 0
                        && jobs@[j2].regular_dependency_count == 0
                        && jobs@[j2].per_viewport_dependency_count == 0
                        && jobs@[j2].required_for@.len() == 0,
                forall|i: int|
                    0 <= i < lookup@.len() && (#[trigger] lookup@[i]) is Some ==> ({
                        let j = lookup@[i].unwrap() as int;
                        0 <= j < jobs@.len() && jobs@[j].id.spec_index() == i
                    }),
                forall|j2: int|
                    0 <= j2 < jobs@.len() ==> 0 <= (#[trigger] jobs@[j2].id).spec_index()
                        < lookup@.len() && lookup@[jobs@[j2].id.spec_index()] == Some(
                        j2 as usize,
                    ),
            decreases pairs@.len() - k,
        {
            let (id, job) = pairs[k];
            if job.kind() == kind {
                proof {
                    id.lemma_fields_in_range();
                }
                let index = id.index();
                while lookup.len() < index + 1
                    invariant
                        index <= MAX_INDEX,
                        forall|i: int|
                            0 <= i < lookup@.len() && (#[trigger] lookup@[i]) is Some ==> ({
                                let j = lookup@[i].unwrap() as int;
                                0 <= j < jobs@.len() && jobs@[j].id.spec_index() == i
                            }),
                        forall|j2: int|
                            0 <= j2 < jobs@.len() ==> 0 <= (#[trigger] jobs@[j2].id).spec_index()
                                < lookup@.len() && lookup@[jobs@[j2].id.spec_index()] == Some(
                                j2 as usize,
                            ),
                    decreases index + 1 - lookup@.len(),
                {
                    lookup.push(None);
                }
                let j = jobs.len();
                proof {
                    assert forall|j2: int|
                        0 <= j2 < jobs@.len() implies (#[trigger] jobs@[j2].id).spec_index()
                        != id.spec_index() by {
                        let i2 = source_of@[j2] as int;
                        assert(jobs@[j2].id == pairs@[i2].0);
                        assert(pairs@[i2].0.spec_index() < pairs@[k as int].0.spec_index());
                    }
                }
                let ghost pre_source = source_of@;
                lookup[index] = Some(j);
                source_of.push(k);
                proof {
                    assert forall|i: int|
                        0 <= i < k + 1 && (#[trigger] pairs@[i]).1.spec_kind()
                            == kind implies exists|jx: int|
                        0 <= jx < source_of@.len() && source_of@[jx] as int == i by {
                        if i == k as int {
                            assert(source_of@[source_of@.len() - 1] as int == i);
                        } else {
                            let jx = choose|jx: int|
                                0 <= jx < pre_source.len() && pre_source[jx] as int == i;
                            assert(source_of@[jx] as int == i);
                        }
                    }
                }
                jobs.push(
                    JobState {
                        id,
                        function: *job.function(),
                        regular_dependency_count: 0,
                        per_viewport_dependency_count: 0,
                        dependencies_finished: 0,
                        required_for: Vec::new(),
                        predecessors: Vec::new(),
                        executed_per_viewport: job.executed_per_viewport(),
                    },
                );
                if job.executed_per_viewport() {
                    per_viewport_job_count = per_viewport_job_count + 1;
                } else {
                    regular_job_count = regular_job_count + 1;
                }
            }
            k = k + 1;
        }
        let n = jobs.len();
        let mut j: usize = 0;
        while j < n
            invariant
                registry.wf(),
                n == jobs@.len(),
                n <= MAX_INDEX as int,
                j <= n,
                pairs@.len() <= MAX_INDEX as int,
                forall|i: int|
                    0 <= i < pairs@.len() ==> registry.spec_job((#[trigger] pairs@[i]).0)
                        == Some(*pairs@[i].1) && pairs@[i].1.wf(),
                regular_job_count + per_viewport_job_count == n,
                sources_ok(jobs@, pairs@, source_of@, kind),
                preds_ok(jobs@, j as int),
                edges_ok(jobs@, pairs@, source_of@, j as int),
                forall|j2: int|
                    0 <= j2 < n ==> (#[trigger] jobs@[j2]).required_for@.len() == 0,
                forall|j2: int|
                    j <= j2 < n ==> (#[trigger] jobs@[j2]).predecessors@.len() == 0
                        && jobs@[j2].regular_dependency_count == 0
                        && jobs@[j2].per_viewport_dependency_count == 0,
                forall|i: int|
                    0 <= i < lookup@.len() && (#[trigger] lookup@[i]) is Some ==> ({
                        let j2 = lookup@[i].unwrap() as int;
                        0 <= j2 < n && jobs@[j2].id.spec_index() == i
                    }),
                forall|j2: int|
                    0 <= j2 < n ==> 0 <= (#[trigger] jobs@[j2].id).spec_index() < lookup@.len()
                        && lookup@[jobs@[j2].id.spec_index()] == Some(j2 as usize),
            decreases n - j,
        {
            let src = source_of[j];
            let deps = pairs[src].1.dependencies();
            let (preds, regular, per_viewport) = build_predecessors(&jobs, &lookup, deps, j);
            let ghost pre = jobs@;
            jobs[j].predecessors = preds;
            jobs[j].regular_dependency_count = regular;
            jobs[j].per_viewport_dependency_count = per_viewport;
            proof {
                assert forall|j2: int| 0 <= j2 < n && j2 != j implies jobs@[j2] == pre[j2] by {}
                assert(jobs@[j as int].id == pre[j as int].id);
                assert forall|j2: int|
                    0 <= j2 < jobs@.len() implies {
                    let i = (#[trigger] source_of@[j2]) as int;
                    &&& 0 <= i < pairs@.len()
                    &&& jobs@[j2].id == pairs@[i].0
                    &&& pairs@[i].1.spec_kind() == kind
                    &&& jobs@[j2].function == pairs@[i].1.spec_function()
                    &&& jobs@[j2].executed_per_viewport == pairs@[i].1.spec_per_viewport()
                    &&& jobs@[j2].dependencies_finished == 0
                } by {
                    if j2 != j as int {
                        assert(jobs@[j2] == pre[j2]);
                    }
                }
                assert(sources_ok(jobs@, pairs@, source_of@, kind));
                assert forall|j2: int|
                    0 <= j2 < j + 1 implies {
                    let job = #[trigger] jobs@[j2];
                    &&& job.predecessors@.no_duplicates()
                    &&& (forall|t: int|
                        0 <= t < job.predecessors@.len() ==> ((
                        #[trigger] job.predecessors@[t]) as int) < jobs@.len())
                    &&& job.regular_dependency_count as int == count_preds_regular(
                        jobs@,
                        job.predecessors@,
                        job.predecessors@.len() as int,
                    )
                    &&& job.per_viewport_dependency_count as int == count_preds_per_viewport(
                        jobs@,
                        job.predecessors@,
                        job.predecessors@.len() as int,
                    )
                } by {
                    if j2 != j as int {
                        assert(jobs@[j2] == pre[j2]);
                        lemma_preds_counts_congruent(
                            jobs@,
                            pre,
                            jobs@[j2].predecessors@,
                            jobs@[j2].predecessors@.len() as int,
                        );
                    } else {
                        lemma_preds_counts_congruent(
                            jobs@,
                            pre,
                            preds@,
                            preds@.len() as int,
                        );
                    }
                }
                assert(preds_ok(jobs@, j + 1));
                assert forall|jx: int, p2: int|
                    0 <= jx < j + 1 && 0 <= p2 < jobs@.len() implies ((
                #[trigger] jobs@[jx].predecessors@.contains(p2 as usize))
                    <==> pairs@[source_of@[jx] as int].1.spec_dependencies().contains(
                    jobs@[p2].id,
                )) by {
                    assert(jobs@[p2].id == pre[p2].id);
                    if jx == j as int {
                        assert(jobs@[jx].predecessors@ == preds@);
                        assert(preds@.contains(p2 as usize) <==> deps@.contains(
                            pre[p2 as usize as int].id,
                        ));
                    } else {
                        assert(jobs@[jx] == pre[jx]);
                    }
                }
                assert(edges_ok(jobs@, pairs@, source_of@, j + 1));
            }
            j = j + 1;
        }
        let mut s: usize = 0;
        while s < n
            invariant
                n == jobs@.len(),
                n <= MAX_INDEX as int,
                s <= n,
                pairs@.len() <= MAX_INDEX as int,
                registry.wf(),
                forall|i: int|
                    0 <= i < pairs@.len() ==> registry.spec_job((#[trigger] pairs@[i]).0)
                        == Some(*pairs@[i].1) && pairs@[i].1.wf(),
                regular_job_count + per_viewport_job_count == n,
                sources_ok(jobs@, pairs@, source_of@, kind),
                preds_ok(jobs@, n as int),
                edges_ok(jobs@, pairs@, source_of@, n as int),
                forall|p: int|
                    0 <= p < n ==> (#[trigger] jobs@[p].required_for@).no_duplicates(),
                forall|p: int, t: int|
                    0 <= p < n && 0 <= t < jobs@[p].required_for@.len() ==> ((
                    #[trigger] jobs@[p].required_for@[t]) as int) < s,
                forall|p: int, s2: int|
                    0 <= p < n && 0 <= s2 < s ==> (jobs@[p].required_for@.contains(s2 as usize)
                        <==> jobs@[s2].predecessors@.contains(p as usize)),
                forall|p: int, s2: int|
                    0 <= p < n && s <= s2 < n ==> !(#[trigger] jobs@[p].required_for@.contains(
                        s2 as usize,
                    )),
            decreases n - s,
        {
            let m = jobs[s].predecessors.len();
            let mut t: usize = 0;
            while t < m
                invariant
                    n == jobs@.len(),
                    (s as int) < n,
                    m == jobs@[s as int].predecessors@.len(),
                    t <= m,
                    sources_ok(jobs@, pairs@, source_of@, kind),
                    preds_ok(jobs@, n as int),
                    edges_ok(jobs@, pairs@, source_of@, n as int),
                    forall|p: int|
                        0 <= p < n ==> (#[trigger] jobs@[p].required_for@).no_duplicates(),
                    forall|p: int, t2: int|
                        0 <= p < n && 0 <= t2 < jobs@[p].required_for@.len() ==> ((
                        #[trigger] jobs@[p].required_for@[t2]) as int) <= s as int,
                    forall|p: int, s2: int|
                        0 <= p < n && 0 <= s2 < s ==> (jobs@[p].required_for@.contains(
                            s2 as usize,
                        ) <==> jobs@[s2].predecessors@.contains(p as usize)),
                    forall|p: int|
                        0 <= p < n ==> ((#[trigger] jobs@[p].required_for@).contains(s)
                            <==> exists|t2: int|
                            0 <= t2 < t && jobs@[s as int].predecessors@[t2] == p as usize),
                    forall|p: int, s2: int|
                        0 <= p < n && (s as int) < s2 < n ==> !(
                        #[trigger] jobs@[p].required_for@.contains(s2 as usize)),
                decreases m - t,
            {
                let p = jobs[s].predecessors[t];
                let ghost pre = jobs@;
                proof {
                    if pre[p as int].required_for@.contains(s) {
                        let t2 = choose|t2: int|
                            0 <= t2 < t && pre[s as int].predecessors@[t2] == p;
                        assert(pre[s as int].predecessors@[t2]
                            == pre[s as int].predecessors@[t as int]);
                    }
                    assert(!pre[p as int].required_for@.contains(s));
                }
                jobs[p].required_for.push(s);
                proof {
                    assert forall|j2: int| 0 <= j2 < n && j2 != p implies jobs@[j2]
                        == pre[j2] by {}
                    assert(jobs@[p as int].required_for@ == pre[p as int].required_for@.push(
                        s,
                    ));
                    assert(jobs@[p as int].id == pre[p as int].id);
                    assert(jobs@[p as int].predecessors@ == pre[p as int].predecessors@);
                    assert forall|j2: int|
                        0 <= j2 < jobs@.len() implies {
                        let i = (#[trigger] source_of@[j2]) as int;
                        &&& 0 <= i < pairs@.len()
                        &&& jobs@[j2].id == pairs@[i].0
                        &&& pairs@[i].1.spec_kind() == kind
                        &&& jobs@[j2].function == pairs@[i].1.spec_function()
                        &&& jobs@[j2].executed_per_viewport == pairs@[i].1.spec_per_viewport()
                        &&& jobs@[j2].dependencies_finished == 0
                    } by {
                        if j2 != p as int {
                            assert(jobs@[j2] == pre[j2]);
                        }
                    }
                    assert(sources_ok(jobs@, pairs@, source_of@, kind));
                    assert forall|j2: int|
                        0 <= j2 < n implies {
                        let job = #[trigger] jobs@[j2];
                        &&& job.predecessors@.no_duplicates()
                        &&& (forall|t2: int|
                            0 <= t2 < job.predecessors@.len() ==> ((
                            #[trigger] job.predecessors@[t2]) as int) < jobs@.len())
                        &&& job.regular_dependency_count as int == count_preds_regular(
                            jobs@,
                            job.predecessors@,
                            job.predecessors@.len() as int,
                        )
                        &&& job.per_viewport_dependency_count as int
                            == count_preds_per_viewport(
                            jobs@,
                            job.predecessors@,
                            job.predecessors@.len() as int,
                        )
                    } by {
                        if j2 != p as int {
                            assert(jobs@[j2] == pre[j2]);
                        }
                        assert(jobs@[j2].predecessors@ == pre[j2].predecessors@);
                        lemma_preds_counts_congruent(
                            jobs@,
                            pre,
                            jobs@[j2].predecessors@,
                            jobs@[j2].predecessors@.len() as int,
                        );
                    }
                    assert(preds_ok(jobs@, n as int));
                    assert forall|jx: int, p2: int|
                        0 <= jx < n && 0 <= p2 < n implies ((
                    #[trigger] jobs@[jx].predecessors@.contains(p2 as usize))
                        <==> pairs@[source_of@[jx] as int].1.spec_dependencies().contains(
                        jobs@[p2].id,
                    )) by {
                        if jx != p as int {
                            assert(jobs@[jx] == pre[jx]);
                        }
                        assert(jobs@[jx].predecessors@ == pre[jx].predecessors@);
                        if p2 != p as int {
                            assert(jobs@[p2] == pre[p2]);
                        }
                        assert(jobs@[p2].id == pre[p2].id);
                    }
                    assert(edges_ok(jobs@, pairs@, source_of@, n as int));
                    assert forall|p2: int|
                        0 <= p2 < n implies ((#[trigger] jobs@[p2].required_for@).contains(s)
                        <==> exists|t2: int|
                            0 <= t2 < t + 1 && jobs@[s as int].predecessors@[t2]
                                == p2 as usize) by {
                        lemma_contains_after_push(pre[p as int].required_for@, s, s);
                        if p2 == p as int {
                            assert(jobs@[s as int].predecessors@[t as int] == p2 as usize);
                            assert(jobs@[p2].required_for@.contains(s));
                        } else {
                            assert(jobs@[p2].required_for@ == pre[p2].required_for@);
                            if jobs@[p2].required_for@.contains(s) {
                                let t2 = choose|t2: int|
                                    0 <= t2 < t && pre[s as int].predecessors@[t2]
                                        == p2 as usize;
                                assert(0 <= t2 < t + 1 && jobs@[s as int].predecessors@[t2]
                                    == p2 as usize);
                            } else {
                                if exists|t2: int|
                                    0 <= t2 < t + 1 && jobs@[s as int].predecessors@[t2]
                                        == p2 as usize {
                                    let t2 = choose|t2: int|
                                        0 <= t2 < t + 1 && jobs@[s as int].predecessors@[t2]
                                            == p2 as usize;
                                    assert(t2 < t);
                                }
                            }
                        }
                    }
                    assert forall|p2: int, s2: int|
                        0 <= p2 < n && 0 <= s2 < s implies (jobs@[p2].required_for@.contains(
                        s2 as usize,
                    ) <==> jobs@[s2].predecessors@.contains(p2 as usize)) by {
                        lemma_contains_after_push(pre[p as int].required_for@, s, s2 as usize);
                    }
                    assert forall|p2: int, s2: int|
                        0 <= p2 < n && (s as int) < s2 < n implies !(
                    #[trigger] jobs@[p2].required_for@.contains(s2 as usize)) by {
                        lemma_contains_after_push(pre[p as int].required_for@, s, s2 as usize);
                        assert(!pre[p2].required_for@.contains(s2 as usize));
                    }
                }
                t = t + 1;
            }
            proof {
                assert forall|p: int, s2: int|
                    0 <= p < n && 0 <= s2 < s + 1 implies (jobs@[p].required_for@.contains(
                    s2 as usize,
                ) <==> jobs@[s2].predecessors@.contains(p as usize)) by {
                    if s2 == s as int {
                        if jobs@[s2].predecessors@.contains(p as usize) {
                            let t2 = choose|t2: int|
                                0 <= t2 < jobs@[s2].predecessors@.len()
                                    && jobs@[s2].predecessors@[t2] == p as usize;
                        }
                    }
                }
            }
            s = s + 1;
        }
        let mut jobs_without_dependencies: Vec<usize> = Vec::new();
        let mut j2: usize = 0;
        while j2 < n
            invariant
                n == jobs@.len(),
                j2 <= n,
                jobs_without_dependencies@.no_duplicates(),
                forall|i: int|
                    0 <= i < jobs_without_dependencies@.len() ==> ((
                    #[trigger] jobs_without_dependencies@[i]) as int) < j2 as int,
                forall|j3: int|
                    0 <= j3 < j2 ==> (jobs_without_dependencies@.contains(j3 as usize)
                        <==> jobs@[j3].predecessors@.len() == 0),
            decreases n - j2,
        {
            let ghost pre = jobs_without_dependencies@;
            if jobs[j2].predecessors.len() == 0 {
                proof {
                    assert(!jobs_without_dependencies@.contains(j2));
                }
                jobs_without_dependencies.push(j2);
                proof {
                    assert forall|j3: int|
                        0 <= j3 < j2 + 1 implies (jobs_without_dependencies@.contains(
                        j3 as usize,
                    ) <==> jobs@[j3].predecessors@.len() == 0) by {
                        lemma_contains_after_push(pre, j2, j3 as usize);
                    }
                }
            } else {
                proof {
                    assert(!jobs_without_dependencies@.contains(j2));
                }
            }
            j2 = j2 + 1;
        }
        let ghost jobs_view = jobs@;
        let acyclic = check_acyclic(&jobs);
        if acyclic {
            let scheduler = Self {
                jobs,
                jobs_without_dependencies,
                regular_job_count,
                per_viewport_job_count,
                last_run: Ghost(Seq::empty()),
                last_frame_entities: Ghost(arbitrary()),
                last_despawns: Ghost(Seq::empty()),
                last_spawn_count: Ghost(0),
            };
            proof {
                let sjobs = scheduler.jobs@;
                assert forall|jx: int|
                    0 <= jx < sjobs.len() implies scheduler.job_wf(jx, sjobs.len() as int) by {
                    let i = source_of@[jx];
                    assert(sjobs[jx].predecessors@.no_duplicates());
                }
                assert forall|p: int, s2: int|
                    0 <= p < sjobs.len() && 0 <= s2 < sjobs.len() implies (
                #[trigger] scheduler.spec_successors(p).contains(s2 as usize)
                    <==> #[trigger] scheduler.spec_predecessors(s2).contains(p as usize)) by {
                    assert(sjobs[p].required_for@.contains(s2 as usize) <==> sjobs[s2].predecessors@.contains(
                        p as usize,
                    ));
                }
                assert forall|jx: int|
                    0 <= jx < sjobs.len() implies (
                scheduler.jobs_without_dependencies@.contains(jx as usize)
                    <==> scheduler.spec_is_root(jx)) by {
                    assert(jobs_without_dependencies@.contains(jx as usize) <==> sjobs[jx].predecessors@.len()
                        == 0);
                }
                assert forall|jx: int|
                    0 <= jx < sjobs.len() implies scheduler.spec_dependencies_finished(jx)
                    == 0 by {
                    let i = source_of@[jx];
                }
                assert(scheduler.wf());
                assert forall|jx: int|
                    0 <= jx < scheduler.spec_job_count() implies {
                    let source = registry.spec_job(#[trigger] scheduler.spec_job_id(jx));
                    &&& source is Some
                    &&& source.unwrap().spec_kind() == kind
                    &&& source.unwrap().spec_function() == scheduler.spec_function(jx)
                    &&& source.unwrap().spec_per_viewport() == scheduler.spec_per_viewport(jx)
                } by {
                    let i = source_of@[jx] as int;
                    assert(registry.spec_job(pairs@[i].0) == Some(*pairs@[i].1));
                }
                assert forall|j1: int, j2: int|
                    0 <= j1 < j2 < sjobs.len() implies sjobs[j1].id != sjobs[j2].id by {
                    let i1 = source_of@[j1] as int;
                    let i2 = source_of@[j2] as int;
                    assert(i1 < i2);
                    assert(pairs@[i1].0.spec_index() < pairs@[i2].0.spec_index());
                    assert(sjobs[j1].id == pairs@[i1].0);
                    assert(sjobs[j2].id == pairs@[i2].0);
                }
                assert forall|id: StandardVersionedIndexId|
                    (#[trigger] registry.spec_job(id)) is Some && registry.spec_job(
                        id,
                    ).unwrap().spec_kind() == kind implies exists|jx: int|
                    0 <= jx < scheduler.spec_job_count() && scheduler.spec_job_id(jx) == id by {
                    assert(registry.spec_live_ids().contains(id));
                    let i = choose|i: int|
                        0 <= i < registry.spec_live_ids().len() && registry.spec_live_ids()[i]
                            == id;
                    assert(pairs@[i].0 == id);
                    assert(registry.spec_job(pairs@[i].0) == Some(*pairs@[i].1));
                    assert(pairs@[i].1.spec_kind() == kind);
                    let jx = choose|jx: int|
                        0 <= jx < source_of@.len() && source_of@[jx] as int == i;
                    assert(sjobs[jx].id == pairs@[i].0);
                    assert(scheduler.spec_job_id(jx) == id);
                }
                assert forall|jx: int, p: int|
                    0 <= jx < sjobs.len() && 0 <= p < sjobs.len() implies ((
                #[trigger] scheduler.spec_predecessors(jx).contains(p as usize))
                    <==> registry.spec_job(
                    scheduler.spec_job_id(jx),
                ).unwrap().spec_dependencies().contains(scheduler.spec_job_id(p))) by {
                    let i = source_of@[jx] as int;
                    assert(sjobs[jx].id == pairs@[i].0);
                    assert(registry.spec_job(pairs@[i].0) == Some(*pairs@[i].1));
                    assert(sjobs[jx].predecessors@.contains(p as usize)
                        <==> pairs@[i].1.spec_dependencies().contains(sjobs[p].id));
                }
                let order = choose|order: Seq<int>| topo_order_of(jobs_view, order);
                assert(sjobs == jobs_view);
                assert forall|k: int, p: usize|
                    0 <= k < order.len() && (
                #[trigger] scheduler.spec_predecessors(order[k]).contains(p)) implies exists|
                    k2: int,
                | 0 <= k2 < k && order[k2] == p as int by {
                    assert(jobs_view[order[k]].predecessors@.contains(p));
                }
                assert(scheduler.spec_topological_order(order));
                let rorder = Seq::new(order.len(), |k: int| sjobs[order[k]].id);
                assert forall|k: int|
                    0 <= k < rorder.len() implies (#[trigger] registry.spec_job(rorder[k]))
                    is Some && registry.spec_job(rorder[k]).unwrap().spec_kind() == kind by {
                    assert(rorder[k] == scheduler.spec_job_id(order[k]));
                }
                assert forall|k1: int, k2: int|
                    0 <= k1 < rorder.len() && 0 <= k2 < rorder.len() && k1 != k2 implies rorder[k1]
                    != rorder[k2] by {
                    assert(order[k1] != order[k2]);
                    if order[k1] < order[k2] {
                        assert(sjobs[order[k1]].id != sjobs[order[k2]].id);
                    } else {
                        assert(sjobs[order[k2]].id != sjobs[order[k1]].id);
                    }
                }
                assert(rorder.no_duplicates());
                order.unique_seq_to_set();
                broadcast use vstd::seq_lib::seq_to_set_is_finite;

                let range = vstd::set_lib::set_int_range(0, sjobs.len() as int);
                vstd::set_lib::lemma_int_range(0, sjobs.len() as int);
                assert(order.to_set().subset_of(range));
                lemma_subset_equal_card(order.to_set(), range);
                assert forall|id: StandardVersionedIndexId|
                    (#[trigger] registry.spec_job(id)) is Some && registry.spec_job(
                        id,
                    ).unwrap().spec_kind() == kind implies rorder.contains(id) by {
                    let jx = choose|jx: int|
                        0 <= jx < scheduler.spec_job_count() && scheduler.spec_job_id(jx) == id;
                    assert(range.contains(jx));
                    assert(order.to_set().contains(jx));
                    assert(order.contains(jx));
                    let k = choose|k: int| 0 <= k < order.len() && order[k] == jx;
                    assert(rorder[k] == id);
                }
                assert forall|k: int, d: StandardVersionedIndexId|
                    0 <= k < rorder.len() && (#[trigger] registry.spec_job(
                        rorder[k],
                    ).unwrap().spec_dependencies().contains(d)) && registry.spec_job(d) is Some
                    && registry.spec_job(d).unwrap().spec_kind() == kind implies exists|k2: int|
                    0 <= k2 < k && rorder[k2] == d by {
                    let p = choose|p: int|
                        0 <= p < scheduler.spec_job_count() && scheduler.spec_job_id(p) == d;
                    assert(rorder[k] == scheduler.spec_job_id(order[k]));
                    assert(registry.spec_job(
                        scheduler.spec_job_id(order[k]),
                    ).unwrap().spec_dependencies().contains(scheduler.spec_job_id(p)));
                    assert(scheduler.spec_predecessors(order[k]).contains(p as usize));
                    let k2 = choose|k2: int| 0 <= k2 < k && order[k2] == (p as usize) as int;
                    assert(rorder[k2] == scheduler.spec_job_id(p));
                }
                assert(registry_topological_order(*registry, kind, rorder));
            }
            Ok(scheduler)
        } else {
            proof {
                assert forall|jx: int|
                    0 <= jx < jobs@.len() implies {
                    let source = registry.spec_job(#[trigger] jobs@[jx].id);
                    &&& source is Some
                    &&& source.unwrap().spec_kind() == kind
                    &&& source.unwrap().spec_dependencies() == pairs@[source_of@[jx] as int].1.spec_dependencies()
                } by {
                    let i = source_of@[jx] as int;
                    assert(jobs@[jx].id == pairs@[i].0);
                    assert(registry.spec_job(pairs@[i].0) == Some(*pairs@[i].1));
                }
                assert forall|j1: int, j2: int|
                    0 <= j1 < j2 < jobs@.len() implies jobs@[j1].id != jobs@[j2].id by {
                    let i1 = source_of@[j1] as int;
                    let i2 = source_of@[j2] as int;
                    assert(i1 < i2);
                    assert(pairs@[i1].0.spec_index() < pairs@[i2].0.spec_index());
                    assert(jobs@[j1].id == pairs@[i1].0);
                    assert(jobs@[j2].id == pairs@[i2].0);
                }
                assert forall|id: StandardVersionedIndexId|
                    (#[trigger] registry.spec_job(id)) is Some && registry.spec_job(
                        id,
                    ).unwrap().spec_kind() == kind implies exists|j: int|
                    0 <= j < jobs@.len() && jobs@[j].id == id by {
                    assert(registry.spec_live_ids().contains(id));
                    let i = choose|i: int|
                        0 <= i < registry.spec_live_ids().len() && registry.spec_live_ids()[i]
                            == id;
                    assert(pairs@[i].0 == id);
                    assert(registry.spec_job(pairs@[i].0) == Some(*pairs@[i].1));
                    assert(pairs@[i].1.spec_kind() == kind);
                    let jx = choose|jx: int|
                        0 <= jx < source_of@.len() && source_of@[jx] as int == i;
                    assert(jobs@[jx].id == pairs@[i].0);
                }
                if exists|rorder: Seq<StandardVersionedIndexId>| registry_topological_order(
                    *registry,
                    kind,
                    rorder,
                ) {
                    let rorder = choose|rorder: Seq<StandardVersionedIndexId>|
                        registry_topological_order(*registry, kind, rorder);
                    let gorder = Seq::new(
                        rorder.len(),
                        |k: int|
                            choose|j: int| 0 <= j < jobs@.len() && jobs@[j].id == rorder[k],
                    );
                    assert forall|k: int|
                        0 <= k < gorder.len() implies 0 <= #[trigger] gorder[k] < jobs@.len()
                        && jobs@[gorder[k]].id == rorder[k] by {
                        assert(registry.spec_job(rorder[k]) is Some && registry.spec_job(
                            rorder[k],
                        ).unwrap().spec_kind() == kind);
                        assert(exists|j: int| 0 <= j < jobs@.len() && jobs@[j].id == rorder[k]);
                    }
                    assert forall|k1: int, k2: int|
                        0 <= k1 < gorder.len() && 0 <= k2 < gorder.len() && k1 != k2 implies
                    gorder[k1] != gorder[k2] by {
                        if k1 < k2 {
                            assert(rorder[k1] != rorder[k2]);
                        } else {
                            assert(rorder[k2] != rorder[k1]);
                        }
                        if gorder[k1] == gorder[k2] {
                            assert(jobs@[gorder[k1]].id == rorder[k1]);
                            assert(jobs@[gorder[k2]].id == rorder[k2]);
                        }
                    }
                    assert(gorder.no_duplicates());
                    gorder.unique_seq_to_set();
                    broadcast use vstd::seq_lib::seq_to_set_is_finite;

                    let range = vstd::set_lib::set_int_range(0, jobs@.len() as int);
                    vstd::set_lib::lemma_int_range(0, jobs@.len() as int);
                    assert(gorder.to_set().subset_of(range));
                    lemma_len_subset(gorder.to_set(), range);
                    assert(rorder.len() <= jobs@.len());
                    let jseq = Seq::new(
                        jobs@.len(),
                        |j: int|
                            choose|k: int| 0 <= k < rorder.len() && rorder[k] == jobs@[j].id,
                    );
                    assert forall|j: int|
                        0 <= j < jseq.len() implies 0 <= #[trigger] jseq[j] < rorder.len()
                        && rorder[jseq[j]] == jobs@[j].id by {
                        assert(registry.spec_job(jobs@[j].id) is Some && registry.spec_job(
                            jobs@[j].id,
                        ).unwrap().spec_kind() == kind);
                        assert(rorder.contains(jobs@[j].id));
                        assert(exists|k: int|
                            0 <= k < rorder.len() && rorder[k] == jobs@[j].id);
                    }
                    assert forall|j1: int, j2: int|
                        0 <= j1 < j2 < jseq.len() implies jseq[j1] != jseq[j2] by {
                        assert(jobs@[j1].id != jobs@[j2].id);
                        if jseq[j1] == jseq[j2] {
                            assert(rorder[jseq[j1]] == jobs@[j1].id);
                            assert(rorder[jseq[j2]] == jobs@[j2].id);
                        }
                    }
                    assert(jseq.no_duplicates());
                    jseq.unique_seq_to_set();
                    let range2 = vstd::set_lib::set_int_range(0, rorder.len() as int);
                    vstd::set_lib::lemma_int_range(0, rorder.len() as int);
                    assert(jseq.to_set().subset_of(range2));
                    lemma_len_subset(jseq.to_set(), range2);
                    assert(jobs@.len() <= rorder.len());
                    assert(gorder.len() == jobs@.len());
                    assert forall|k: int, p: usize|
                        0 <= k < gorder.len() && (
                    #[trigger] jobs@[gorder[k]].predecessors@.contains(p)) implies exists|
                        k2: int,
                    | 0 <= k2 < k && gorder[k2] == p as int by {
                        assert((p as int) < jobs@.len());
                        assert(pairs@[source_of@[gorder[k]] as int].1.spec_dependencies().contains(
                            jobs@[p as int].id,
                        ));
                        assert(registry.spec_job(
                            rorder[k],
                        ).unwrap().spec_dependencies().contains(jobs@[p as int].id));
                        assert(registry.spec_job(jobs@[p as int].id) is Some
                            && registry.spec_job(jobs@[p as int].id).unwrap().spec_kind()
                            == kind);
                        let k2 = choose|k2: int|
                            0 <= k2 < k && rorder[k2] == jobs@[p as int].id;
                        assert(jobs@[gorder[k2]].id == rorder[k2]);
                        if gorder[k2] != p as int {
                            if gorder[k2] < p as int {
                                assert(jobs@[gorder[k2]].id != jobs@[p as int].id);
                            } else {
                                assert(jobs@[p as int].id != jobs@[gorder[k2]].id);
                            }
                        }
                        assert(gorder[k2] == p as int);
                    }
                    assert(topo_order_of(jobs@, gorder));
                    assert(false);
                }
            }
            Err(
                Error::new(
                    String::from_str("cyclic job dependency"),
                    SourceLocation::TextFile { filename: String::from_str("scheduler"), line: 0 },
                ),
            )
        }
    }
}


/// `order` lists every registered job of `kind` exactly once, with every
/// same-kind declared dependency standing before its dependent: the
/// registry-level witness that the kind's dependency graph is acyclic.
pub open spec fn registry_topological_order<F>(
    registry: JobRegistry<F>,
    kind: JobKind,
    order: Seq<StandardVersionedIndexId>,
) -> bool {
    &&& order.no_duplicates()
    &&& (forall|k: int|
        0 <= k < order.len() ==> (#[trigger] registry.spec_job(order[k])) is Some
            && registry.spec_job(order[k]).unwrap().spec_kind() == kind)
    &&& (forall|id: StandardVersionedIndexId|
        (#[trigger] registry.spec_job(id)) is Some && registry.spec_job(id).unwrap().spec_kind()
            == kind ==> order.contains(id))
    &&& (forall|k: int, d: StandardVersionedIndexId|
        0 <= k < order.len() && (#[trigger] registry.spec_job(
            order[k],
        ).unwrap().spec_dependencies().contains(d)) && registry.spec_job(d) is Some
            && registry.spec_job(d).unwrap().spec_kind() == kind ==> exists|k2: int|
            0 <= k2 < k && order[k2] == d)
}

/// `out` is a result the callable `f` can produce for some arguments: the
/// anchor tying a run-log entry to the job function that produced it.
pub open spec fn job_result_possible<C, F: Fn(&mut SystemResources, &mut SceneState<C>) -> Result<(), Error>>(
    f: F,
    out: Result<(), Error>,
    game_time_bits: u32,
    delta_time_bits: u32,
    viewport: Option<StandardVersionedIndexId>,
) -> bool {
    exists|sr2: &mut SystemResources, st2: &mut SceneState<C>|
        call_ensures(f, (sr2, st2), out) && sr2.spec_game_time_bits() == game_time_bits
            && sr2.spec_delta_time_bits() == delta_time_bits && sr2.spec_viewport() == viewport
}

/// Pushes the ready-queue entries for one job: one entry per snapshot
/// viewport when the job fans out, one bare entry otherwise.
fn enqueue_job(
    queue: &mut Vec<ScheduledJob>,
    snapshot: &Vec<StandardVersionedIndexId>,
    job_index: usize,
    per_viewport: bool,
)
    ensures
        final(queue)@.len() == old(queue)@.len() + (if per_viewport {
            snapshot@.len()
        } else {
            1
        }),
        forall|k: int| 0 <= k < old(queue)@.len() ==> final(queue)@[k] == old(queue)@[k],
        forall|k: int|
            old(queue)@.len() <= k < final(queue)@.len() ==> (#[trigger] final(queue)@[k]).job_index
                == job_index && final(queue)@[k].viewport == (if per_viewport {
                Some(snapshot@[k - old(queue)@.len()])
            } else {
                None
            }),
{
    if per_viewport {
        let mut i: usize = 0;
        while i < snapshot.len()
            invariant
                i <= snapshot@.len(),
                queue@.len() == old(queue)@.len() + i,
                forall|k: int| 0 <= k < old(queue)@.len() ==> queue@[k] == old(queue)@[k],
                forall|k: int|
                    old(queue)@.len() <= k < queue@.len() ==> (#[trigger] queue@[k]).job_index
                        == job_index && queue@[k].viewport == Some(
                        snapshot@[k - old(queue)@.len()],
                    ),
            decreases snapshot@.len() - i,
        {
            queue.push(ScheduledJob { job_index, viewport: Some(snapshot[i]) });
            i = i + 1;
        }
    } else {
        queue.push(ScheduledJob { job_index, viewport: None });
    }
}

/// Some queue entry carries exactly this (job, viewport) instance.
spec fn instance_queued(
    queue: Seq<ScheduledJob>,
    j: int,
    v: Option<StandardVersionedIndexId>,
) -> bool {
    exists|q: int|
        0 <= q < queue.len() && (#[trigger] queue[q]).job_index as int == j && queue[q].viewport
            == v
}

/// Some log entry records exactly this (job, viewport) instance.
spec fn instance_logged(
    log: Seq<(int, Option<StandardVersionedIndexId>, Result<(), Error>)>,
    j: int,
    v: Option<StandardVersionedIndexId>,
) -> bool {
    exists|k: int| 0 <= k < log.len() && (#[trigger] log[k]).0 == j && log[k].1 == v
}

/// A queue only ever grows, so a queued instance stays queued.
proof fn lemma_instance_queued_extend(
    pre: Seq<ScheduledJob>,
    post: Seq<ScheduledJob>,
    j: int,
    v: Option<StandardVersionedIndexId>,
)
    requires
        pre.len() <= post.len(),
        forall|q: int| 0 <= q < pre.len() ==> post[q] == pre[q],
        instance_queued(pre, j, v),
    ensures
        instance_queued(post, j, v),
{
    let q = choose|q: int|
        0 <= q < pre.len() && (#[trigger] pre[q]).job_index as int == j && pre[q].viewport == v;
    assert(post[q].job_index as int == j && post[q].viewport == v);
}

impl<F> Scheduler<F> {
    /// A ready-queue entry fits the graph and the frame's viewport
    /// snapshot.
    spec fn entry_ok(
        self,
        entry: ScheduledJob,
        snapshot: Seq<StandardVersionedIndexId>,
    ) -> bool {
        &&& (entry.job_index as int) < self.spec_job_count()
        &&& (entry.viewport is Some <==> self.spec_per_viewport(entry.job_index as int))
        &&& (entry.viewport is Some ==> snapshot.contains(entry.viewport.unwrap()))
    }

    /// Sets every `dependencies_finished` counter back to zero; nothing
    /// else changes.
    fn reset_counters(&mut self)
        ensures
            final(self).same_graph(*old(self)),
            old(self).graph_wf() ==> final(self).graph_wf(),
            final(self).jobs_without_dependencies@ == old(self).jobs_without_dependencies@,
            final(self).spec_last_run() == old(self).spec_last_run(),
            forall|j: int|
                0 <= j < final(self).spec_job_count() ==> final(self).spec_dependencies_finished(
                    j,
                ) == 0,
    {
        let n = self.jobs.len();
        let mut j: usize = 0;
        while j < n
            invariant
                n == self.jobs@.len(),
            j <= n,
                self.same_graph(*old(self)),
                self.jobs_without_dependencies@ == old(self).jobs_without_dependencies@,
                self.regular_job_count == old(self).regular_job_count,
                self.per_viewport_job_count == old(self).per_viewport_job_count,
                self.last_run@ == old(self).last_run@,
                forall|j2: int|
                    0 <= j2 < n ==> (#[trigger] self.jobs@[j2]).id == old(self).jobs@[j2].id
                        && self.jobs@[j2].function == old(self).jobs@[j2].function
                        && self.jobs@[j2].executed_per_viewport == old(self).jobs@[j2].executed_per_viewport && self.jobs@[j2].required_for@ == old(self).jobs@[j2].required_for@ && self.jobs@[j2].predecessors@ == old(self).jobs@[j2].predecessors@ && self.jobs@[j2].regular_dependency_count == old(
                        self,
                    ).jobs@[j2].regular_dependency_count
                        && self.jobs@[j2].per_viewport_dependency_count == old(self).jobs@[j2].per_viewport_dependency_count,
                forall|j2: int|
                    0 <= j2 < j ==> (#[trigger] self.jobs@[j2]).dependencies_finished == 0,
            decreases n - j,
        {
            let ghost pre = self.jobs@;
            self.jobs[j].dependencies_finished = 0;
            proof {
                assert forall|j2: int| 0 <= j2 < n && j2 != j implies self.jobs@[j2] == pre[j2] by {}
            }
            j = j + 1;
        }
        proof {
            if old(self).graph_wf() {
                let n2 = self.jobs@.len() as int;
                assert forall|jx: int| 0 <= jx < n2 implies self.job_wf(jx, n2) by {
                    assert(old(self).job_wf(jx, n2));
                    assert(self.jobs@[jx].required_for@ == old(self).jobs@[jx].required_for@);
                    assert(self.jobs@[jx].predecessors@ == old(self).jobs@[jx].predecessors@);
                    lemma_preds_counts_congruent(
                        self.jobs@,
                        old(self).jobs@,
                        self.jobs@[jx].predecessors@,
                        self.jobs@[jx].predecessors@.len() as int,
                    );
                }
                assert forall|p: int, s2: int|
                    0 <= p < n2 && 0 <= s2 < n2 implies (self.spec_successors(p).contains(
                    s2 as usize,
                ) <==> self.spec_predecessors(s2).contains(p as usize)) by {
                    assert(self.spec_successors(p) == old(self).spec_successors(p));
                    assert(self.spec_predecessors(s2) == old(self).spec_predecessors(s2));
                }
                assert forall|jx: int|
                    0 <= jx < n2 implies (self.jobs_without_dependencies@.contains(jx as usize)
                    <==> self.spec_is_root(jx)) by {
                    assert(old(self).jobs_without_dependencies@.contains(jx as usize) <==> old(
                        self,
                    ).spec_is_root(jx));
                    assert(self.spec_predecessors(jx) == old(self).spec_predecessors(jx));
                }
                assert(self.graph_wf());
            }
        }
    }

    /// Runs one frame: resets the counters, seeds the ready queue with the
    /// roots, executes ready jobs in order while counting finished
    /// predecessor obligations into successors, stops at the first error,
    /// applies the entity requests the jobs submitted, and resets the
    /// counters again.  When a job fails, the entity requests still pending
    /// for that frame are discarded, not applied.  The log of what ran is
    /// kept in [`Self::spec_last_run`].
    pub fn run_jobs<C>(
        &mut self,
        state: &mut SceneState<C>,
        game_time_bits: u32,
        delta_time_bits: u32,
    ) -> (r: Result<(), Error>) where
        F: Copy + Fn(&mut SystemResources, &mut SceneState<C>) -> Result<(), Error>,

        requires
            old(self).graph_wf(),
            forall|j: int, sr: &mut SystemResources, st: &mut SceneState<C>|
                0 <= j < old(self).spec_job_count() ==> #[trigger] call_requires(
                    old(self).spec_function(j),
                    (sr, st),
                ),
        ensures
            final(self).wf(),
            final(self).same_graph(*old(self)),
            ({
                let log = final(self).spec_last_run();
                let snapshot = old(state).spec_viewports().spec_live_ids();
                let expected = old(self).spec_expected_executions(snapshot.len() as int);
                &&& (forall|k: int|
                    0 <= k < log.len() ==> {
                        let entry = #[trigger] log[k];
                        &&& 0 <= entry.0 < old(self).spec_job_count()
                        &&& (entry.1 is Some <==> old(self).spec_per_viewport(entry.0))
                        &&& (entry.1 is Some ==> old(state).spec_viewports().spec_contains(
                            entry.1.unwrap(),
                        ))
                    })
                &&& (forall|k1: int, k2: int|
                    0 <= k1 < k2 < log.len() ==> !(log[k1].0 == log[k2].0 && log[k1].1
                        == log[k2].1))
                &&& (r is Ok ==> log.len() == expected && (forall|k: int|
                    0 <= k < log.len() ==> (#[trigger] log[k]).2 is Ok))
                &&& (r is Err ==> ({
                    ||| (log.len() > 0 && log[log.len() - 1].2 == r && (forall|k: int|
                        0 <= k < log.len() - 1 ==> (#[trigger] log[k]).2 is Ok))
                    ||| ((forall|k: int| 0 <= k < log.len() ==> (#[trigger] log[k]).2 is Ok)
                        && log.len() != expected && r->Err_0.spec_message()
                        == "frame did not complete"@)
                    ||| ((forall|k: int| 0 <= k < log.len() ==> (#[trigger] log[k]).2 is Ok)
                        && log.len() == expected && r->Err_0.spec_message()
                        == "entity id space exhausted"@
                        && final(state).spec_entities().spec_slot_count() >= MAX_INDEX as int)
                }))
                &&& (old(self).spec_job_count() == 0 ==> r is Ok)
                &&& ((exists|order: Seq<int>| old(self).spec_topological_order(order)) && old(
                    state,
                ).spec_viewports().spec_len() > 0 && (forall|k: int|
                    0 <= k < log.len() ==> (#[trigger] log[k]).2 is Ok) ==> log.len()
                    == expected)
                &&& (forall|k: int|
                    0 <= k < log.len() ==> job_result_possible::<C, F>(
                        old(self).spec_function(log[k].0),
                        (#[trigger] log[k]).2,
                        game_time_bits,
                        delta_time_bits,
                        log[k].1,
                    ))
                &&& (r is Ok ==> (forall|j: int|
                    0 <= j < old(self).spec_job_count() && !(#[trigger] old(
                        self,
                    ).spec_per_viewport(j)) ==> exists|k: int|
                        0 <= k < log.len() && log[k].0 == j && log[k].1 is None))
                &&& (r is Ok ==> (forall|j: int, v: StandardVersionedIndexId|
                    0 <= j < old(self).spec_job_count() && (#[trigger] old(
                        self,
                    ).spec_per_viewport(j)) && (#[trigger] old(
                        state,
                    ).spec_viewports().spec_contains(v)) ==> exists|k: int|
                        0 <= k < log.len() && log[k].0 == j && log[k].1 == Some(v)))
                &&& (forall|k: int, p: usize|
                    0 <= k < log.len() && (#[trigger] old(self).spec_predecessors(
                        log[k].0,
                    ).contains(p)) && !old(self).spec_per_viewport(p as int) ==> exists|k2: int|
                        0 <= k2 < k && log[k2].0 == p as int && log[k2].1 is None)
                &&& (forall|k: int, p: usize, v: StandardVersionedIndexId|
                    0 <= k < log.len() && (#[trigger] old(self).spec_predecessors(
                        log[k].0,
                    ).contains(p)) && old(self).spec_per_viewport(p as int) && (#[trigger] old(
                        state,
                    ).spec_viewports().spec_contains(v)) ==> exists|k2: int|
                        0 <= k2 < k && log[k2].0 == p as int && log[k2].1 == Some(v))
                &&& ({
                    let post = final(self).spec_last_frame_entities();
                    let despawns = final(self).spec_last_despawns();
                    let spawns = final(self).spec_last_spawn_count();
                    let ran = (forall|k: int|
                        0 <= k < log.len() ==> (#[trigger] log[k]).2 is Ok) && log.len()
                        == expected;
                    &&& spawns >= 0
                    &&& (!ran ==> final(state).spec_entities() == post)
                    &&& (ran ==> (forall|id: StandardVersionedIndexId|
                        despawns.contains(id) && post.spec_contains(id)
                            ==> !final(state).spec_entities().spec_contains(id)) && (forall|
                        id: StandardVersionedIndexId,
                    |
                        !despawns.contains(id) && post.spec_contains(id)
                            ==> final(state).spec_entities().spec_contains(id)))
                    &&& (ran && r is Ok ==> final(state).spec_entities().spec_len()
                        == post.spec_len() - crate::scene::count_freed(
                        despawns,
                        post,
                        despawns.len() as int,
                    ) + spawns)
                    &&& (ran && r is Err ==> final(state).spec_entities().spec_len()
                        == MAX_INDEX as int)
                })
            }),
    {
        let ghost pre_sched = *old(self);
        self.reset_counters();
        let n = self.jobs.len();
        let snapshot = state.viewport_ids();
        let vcount = snapshot.len();
        let mut regular_count: u64 = 0;
        let mut per_viewport_count: u64 = 0;
        let mut ji: usize = 0;
        while ji < n
            invariant
                n == self.jobs@.len(),
                ji <= n,
                regular_count as int == self.count_regular_prefix(ji as int),
                per_viewport_count as int == self.count_per_viewport_prefix(ji as int),
                regular_count + per_viewport_count == ji,
            decreases n - ji,
        {
            if self.jobs[ji].executed_per_viewport {
                per_viewport_count = per_viewport_count + 1;
            } else {
                regular_count = regular_count + 1;
            }
            ji = ji + 1;
        }
        proof {
            assert(n <= MAX_INDEX as usize);
            assert(vcount <= MAX_INDEX as usize);
            assert(per_viewport_count as int * (vcount as int) <= 16777215int * 16777215int)
                by (nonlinear_arith)
                requires
                    0 <= per_viewport_count as int <= 16777215int,
                    0 <= vcount as int <= 16777215int,
            ;
            self.lemma_prefix_counts(pre_sched, n as int);
        }
        let expected: u64 = regular_count + per_viewport_count * (vcount as u64);
        let mut queue: Vec<ScheduledJob> = Vec::new();
        let ghost mut enqueued: Seq<bool> = Seq::new(n as nat, |j: int| false);
        let ghost mut records: Map<
            int,
            Seq<(int, Option<StandardVersionedIndexId>, Result<(), Error>)>,
        > = Map::empty();
        proof {
            lemma_count_true_all_false(enqueued);
        }
        let root_count = self.jobs_without_dependencies.len();
        let mut ri: usize = 0;
        while ri < root_count
            invariant
                self.graph_wf(),
                self.same_graph(pre_sched),
                n == self.jobs@.len(),
                vcount == snapshot@.len(),
                snapshot@.no_duplicates(),
                root_count == self.jobs_without_dependencies@.len(),
                ri <= root_count,
                enqueued.len() == n,
                forall|j: int| 0 <= j < n ==> ((#[trigger] enqueued[j]) <==> (self.spec_is_root(
                    j,
                ) && exists|x: int|
                    0 <= x < ri && self.jobs_without_dependencies@[x] == j as usize)),
                forall|k: int|
                    0 <= k < queue@.len() ==> self.entry_ok(#[trigger] queue@[k], snapshot@),
                forall|k: int|
                    0 <= k < queue@.len() ==> enqueued[(#[trigger] queue@[k]).job_index as int],
                forall|k1: int, k2: int|
                    0 <= k1 < k2 < queue@.len() ==> !(queue@[k1].job_index == queue@[k2].job_index && queue@[k1].viewport == queue@[k2].viewport),
                queue@.len() <= count_true(enqueued) * (vcount as int + 1),
                forall|j: int, vx: int|
                    0 <= j < n && (#[trigger] enqueued[j]) && self.spec_per_viewport(j) && 0 <= vx
                        < vcount ==> instance_queued(queue@, j, Some(#[trigger] snapshot@[vx])),
                forall|j: int|
                    0 <= j < n && (#[trigger] enqueued[j]) && !self.spec_per_viewport(j)
                        ==> instance_queued(queue@, j, None),
                count_true(enqueued) <= n,
                queue@.len() <= (n as int) * (vcount as int + 1),
                forall|j: int| 0 <= j < n ==> #[trigger] self.spec_dependencies_finished(j) == 0,
            decreases root_count - ri,
        {
            let root = self.jobs_without_dependencies[ri];
            proof {
                assert(self.jobs_without_dependencies@.contains(root));
                assert(self.spec_is_root(root as int));
                if enqueued[root as int] {
                    let x = choose|x: int|
                        0 <= x < ri && self.jobs_without_dependencies@[x] == root;
                    assert(self.jobs_without_dependencies@[x]
                        == self.jobs_without_dependencies@[ri as int]);
                }
                assert(!enqueued[root as int]);
                lemma_count_true_set(enqueued, root as int);
                lemma_count_true_bound(enqueued);
            }
            let ghost pre_queue = queue@;
            let ghost c0 = count_true(enqueued);
            let per_viewport = self.jobs[root].executed_per_viewport;
            enqueue_job(&mut queue, &snapshot, root, per_viewport);
            proof {
                enqueued = enqueued.update(root as int, true);
                assert(count_true(enqueued) == c0 + 1);
                lemma_count_true_bound(enqueued);
                assert((c0 + 1) * (vcount as int + 1) == c0 * (vcount as int + 1) + (
                vcount as int + 1)) by (nonlinear_arith);
                assert(queue@.len() <= count_true(enqueued) * (vcount as int + 1));
                assert(count_true(enqueued) * (vcount as int + 1) <= (n as int) * (vcount as int
                    + 1)) by (nonlinear_arith)
                    requires
                        count_true(enqueued) <= n as int,
                        0 <= vcount as int,
                ;
                assert forall|k1: int, k2: int|
                    0 <= k1 < k2 < queue@.len() implies !(queue@[k1].job_index == queue@[k2].job_index && queue@[k1].viewport == queue@[k2].viewport) by {
                    if k1 < pre_queue.len() && k2 >= pre_queue.len() {
                        assert(!enqueued.update(root as int, true)[queue@[k1].job_index as int]
                            || true);
                        assert(queue@[k1].job_index != root);
                    }
                    if k1 >= pre_queue.len() && k2 >= pre_queue.len() {
                        if per_viewport {
                            assert(queue@[k1].viewport == Some(
                                snapshot@[k1 - pre_queue.len()],
                            ));
                            assert(queue@[k2].viewport == Some(
                                snapshot@[k2 - pre_queue.len()],
                            ));
                        }
                    }
                }
                assert forall|j: int, vx: int|
                    0 <= j < n && (#[trigger] enqueued[j]) && self.spec_per_viewport(j) && 0 <= vx
                        < vcount implies instance_queued(queue@, j, Some(#[trigger] snapshot@[vx])) by {
                    if j == root as int {
                        assert(queue@[pre_queue.len() + vx].job_index as int == j
                            && queue@[pre_queue.len() + vx].viewport == Some(snapshot@[vx]));
                    } else {
                        lemma_instance_queued_extend(pre_queue, queue@, j, Some(snapshot@[vx]));
                    }
                }
                assert forall|j: int|
                    0 <= j < n && (#[trigger] enqueued[j]) && !self.spec_per_viewport(j) implies instance_queued(
                    queue@,
                    j,
                    None,
                ) by {
                    if j == root as int {
                        assert(queue@[pre_queue.len() as int].job_index as int == j
                            && queue@[pre_queue.len() as int].viewport == None::<StandardVersionedIndexId>);
                    } else {
                        lemma_instance_queued_extend(pre_queue, queue@, j, None);
                    }
                }
            }
            ri = ri + 1;
        }
        proof {
            assert forall|j: int| 0 <= j < n implies ((#[trigger] enqueued[j])
                <==> self.spec_is_root(j)) by {
                if self.spec_is_root(j) {
                    assert(self.jobs_without_dependencies@.contains(j as usize));
                    let x = choose|x: int|
                        0 <= x < self.jobs_without_dependencies@.len()
                            && self.jobs_without_dependencies@[x] == j as usize;
                }
            }
        }
        let mut sr = SystemResources {
            game_time_bits,
            delta_time_bits,
            viewport: None,
            spawned_entities: Vec::new(),
            despawned_entities: Vec::new(),
        };
        let mut head: usize = 0;
        let mut jobs_finished: u64 = 0;
        let mut failed: Option<Error> = None;
        let ghost mut log: Seq<(int, Option<StandardVersionedIndexId>, Result<(), Error>)> =
            Seq::empty();
        proof {
            self.lemma_queue_bound(snapshot@, queue@);
            self.lemma_prefix_counts(pre_sched, n as int);
            assert forall|s2: int|
                0 <= s2 < n implies #[trigger] self.spec_dependencies_finished(s2)
                == self.spec_obligations(log, s2) by {}
        }
        while head < queue.len() && failed.is_none()
            invariant
                self.graph_wf(),
                self.same_graph(pre_sched),
                n == self.jobs@.len(),
                vcount == snapshot@.len(),
                vcount <= MAX_INDEX,
                snapshot@.no_duplicates(),
                forall|id: StandardVersionedIndexId|
                    snapshot@.contains(id) ==> old(state).spec_viewports().spec_contains(id),
                forall|j: int, sr2: &mut SystemResources, st2: &mut SceneState<C>|
                    0 <= j < n ==> #[trigger] call_requires(
                        pre_sched.spec_function(j),
                        (sr2, st2),
                    ),
                expected == pre_sched.spec_expected_executions(vcount as int),
                enqueued.len() == n,
                forall|j: int|
                    0 <= j < n ==> ((#[trigger] enqueued[j]) <==> (self.spec_is_root(j) || (
                    self.spec_total_obligations(j, vcount as int) > 0
                        && self.spec_dependencies_finished(j) >= self.spec_total_obligations(
                        j,
                        vcount as int,
                    )))),
                forall|k: int|
                    0 <= k < queue@.len() ==> self.entry_ok(#[trigger] queue@[k], snapshot@),
                forall|k: int|
                    0 <= k < queue@.len() ==> enqueued[(#[trigger] queue@[k]).job_index as int],
                forall|k1: int, k2: int|
                    0 <= k1 < k2 < queue@.len() ==> !(queue@[k1].job_index == queue@[k2].job_index && queue@[k1].viewport == queue@[k2].viewport),
                queue@.len() <= count_true(enqueued) * (vcount as int + 1),
                forall|j: int, vx: int|
                    0 <= j < n && (#[trigger] enqueued[j]) && self.spec_per_viewport(j) && 0 <= vx
                        < vcount ==> instance_queued(queue@, j, Some(#[trigger] snapshot@[vx])),
                forall|j: int|
                    0 <= j < n && (#[trigger] enqueued[j]) && !self.spec_per_viewport(j)
                        ==> instance_queued(queue@, j, None),
                count_true(enqueued) <= n,
                head <= queue@.len(),
                log.len() == head,
                forall|k: int|
                    0 <= k < log.len() ==> (#[trigger] log[k]).0 == queue@[k].job_index as int
                        && log[k].1 == queue@[k].viewport,
                forall|j: int|
                    0 <= j < n ==> 0 <= #[trigger] self.spec_dependencies_finished(j)
                        <= head as int,
                match failed {
                    Option::None => forall|k: int|
                        0 <= k < log.len() ==> (#[trigger] log[k]).2 is Ok,
                    Option::Some(e) => log.len() >= 1 && log[log.len() - 1].2 == Err::<
                        (),
                        Error,
                    >(e) && (forall|k: int|
                        0 <= k < log.len() - 1 ==> (#[trigger] log[k]).2 is Ok),
                },
                forall|k: int|
                    0 <= k < log.len() ==> job_result_possible::<C, F>(
                        pre_sched.spec_function(log[k].0),
                        (#[trigger] log[k]).2,
                        game_time_bits,
                        delta_time_bits,
                        log[k].1,
                    ),
                n == 0 ==> sr.spec_spawn_requests().len() == 0,
                jobs_finished as int == (if failed is None {
                    log.len() as int
                } else {
                    log.len() - 1
                }),
                queue@.len() <= (n as int) * (vcount as int + 1),
                queue@.len() <= expected as int,
                jobs_finished != expected ==> (forall|s2: int|
                    0 <= s2 < n ==> #[trigger] self.spec_dependencies_finished(s2)
                        == self.spec_obligations(log, s2)),
                forall|s2: int|
                    0 <= s2 < n && !self.spec_is_root(s2) && (#[trigger] enqueued[s2])
                        ==> records.dom().contains(s2),
                forall|s2: int|
                    #[trigger] records.dom().contains(s2) ==> 0 <= s2 < n && is_prefix_of(
                        records[s2],
                        log,
                    ) && self.spec_obligations(records[s2], s2) == self.spec_total_obligations(
                        s2,
                        vcount as int,
                    ) && (forall|k2: int|
                        0 <= k2 < records[s2].len() ==> (#[trigger] records[s2][k2]).2 is Ok),
                forall|q: int|
                    0 <= q < queue@.len() && !self.spec_is_root(
                        (#[trigger] queue@[q]).job_index as int,
                    ) ==> records.dom().contains(queue@[q].job_index as int)
                        && records[queue@[q].job_index as int].len() <= q,
            decreases (n as int) * (vcount as int + 1) + 1 - head,
        {
            let scheduled = queue[head];
            head = head + 1;
            proof {
                assert(jobs_finished < expected);
            }
            sr.viewport = scheduled.viewport;
            sr.game_time_bits = game_time_bits;
            sr.delta_time_bits = delta_time_bits;
            let f = self.jobs[scheduled.job_index].function;
            proof {
                let ghost jx = scheduled.job_index as int;
                assert(self.spec_job_id(jx) == pre_sched.spec_job_id(jx));
                assert(f == pre_sched.spec_function(jx));
                assert(sr.spec_game_time_bits() == game_time_bits);
                assert(sr.spec_viewport() == scheduled.viewport);
            }
            let res = f(&mut sr, state);
            proof {
                assert(job_result_possible::<C, F>(
                    pre_sched.spec_function(scheduled.job_index as int),
                    res,
                    game_time_bits,
                    delta_time_bits,
                    scheduled.viewport,
                ));
            }
            let ghost anchored_res = res;
            match res {
                Ok(_) => {
                    let ghost prelog = log;
                    proof {
                        log = log.push(
                            (scheduled.job_index as int, scheduled.viewport, anchored_res),
                        );
                        assert(log.last().2 == anchored_res);
                        assert(log.drop_last() =~= prelog);
                        assert forall|s2: int|
                            #[trigger] records.dom().contains(s2) implies is_prefix_of(
                            records[s2],
                            log,
                        ) by {
                            assert(is_prefix_of(records[s2], prelog));
                        }
                    }
                    jobs_finished = jobs_finished + 1;
                    if jobs_finished != expected {
                        proof {
                            self.lemma_job_bounds(scheduled.job_index as int);
                            assert forall|s2: int|
                                0 <= s2 < n implies #[trigger] self.spec_obligations(log, s2)
                                == self.spec_obligations(prelog, s2) + (
                            if self.spec_successors(scheduled.job_index as int).contains(
                                s2 as usize,
                            ) {
                                1int
                            } else {
                                0int
                            }) by {
                                assert(log.drop_last() =~= prelog);
                            }
                        }
                        let successor_count = self.jobs[scheduled.job_index].required_for.len();
                        let mut t: usize = 0;
                        while t < successor_count
                            invariant
                                self.graph_wf(),
                                self.same_graph(pre_sched),
                                n == self.jobs@.len(),
                                vcount <= MAX_INDEX,
                                vcount == snapshot@.len(),
                                snapshot@.no_duplicates(),
                                (scheduled.job_index as int) < n,
                                successor_count == self.spec_successors(
                                    scheduled.job_index as int,
                                ).len(),
                                t <= successor_count,
                                enqueued.len() == n,
                                forall|j: int|
                                    0 <= j < n ==> ((#[trigger] enqueued[j]) <==> (
                                    self.spec_is_root(j) || (self.spec_total_obligations(
                                        j,
                                        vcount as int,
                                    ) > 0 && self.spec_dependencies_finished(j)
                                        >= self.spec_total_obligations(j, vcount as int)))),
                                forall|k: int|
                                    0 <= k < queue@.len() ==> self.entry_ok(
                                        #[trigger] queue@[k],
                                        snapshot@,
                                    ),
                                forall|k: int|
                                    0 <= k < queue@.len() ==> enqueued[(
                                    #[trigger] queue@[k]).job_index as int],
                                forall|k1: int, k2: int|
                                    0 <= k1 < k2 < queue@.len() ==> !(queue@[k1].job_index
                                        == queue@[k2].job_index && queue@[k1].viewport == queue@[k2].viewport),
                                queue@.len() <= count_true(enqueued) * (vcount as int + 1),
                                forall|j: int, vx: int|
                                    0 <= j < n && (#[trigger] enqueued[j]) && self.spec_per_viewport(j) && 0 <= vx
                                        < vcount ==> instance_queued(queue@, j, Some(#[trigger] snapshot@[vx])),
                                forall|j: int|
                                    0 <= j < n && (#[trigger] enqueued[j]) && !self.spec_per_viewport(j)
                                        ==> instance_queued(queue@, j, None),
                                count_true(enqueued) <= n,
                                queue@.len() <= (n as int) * (vcount as int + 1),
                                head <= queue@.len(),
                                log.len() == head,
                                forall|k: int|
                                    0 <= k < log.len() ==> (#[trigger] log[k]).0 == queue@[k].job_index as int && log[k].1 == queue@[k].viewport,
                                forall|j: int|
                                    0 <= j < n ==> 0 <= #[trigger] self.spec_dependencies_finished(
                                        j,
                                    ) <= head as int,
                                forall|t2: int|
                                    t <= t2 < successor_count
                                        ==> self.spec_dependencies_finished((#[trigger] self.spec_successors(
                                        scheduled.job_index as int,
                                    )[t2]) as int) <= head as int - 1,
                                queue@.len() <= expected as int,
                                expected == pre_sched.spec_expected_executions(vcount as int),
                                forall|k: int| 0 <= k < log.len() ==> (#[trigger] log[k]).2 is Ok,
                                forall|s2: int|
                                    0 <= s2 < n ==> #[trigger] self.spec_dependencies_finished(
                                        s2,
                                    ) == self.spec_obligations(log, s2) - (
                                    if self.spec_successors(scheduled.job_index as int).contains(
                                        s2 as usize,
                                    ) {
                                        1int
                                    } else {
                                        0int
                                    }) + (if exists|t2: int|
                                        0 <= t2 < t && self.spec_successors(
                                            scheduled.job_index as int,
                                        )[t2] == s2 as usize {
                                        1int
                                    } else {
                                        0int
                                    }),
                                forall|s2: int|
                                    0 <= s2 < n && !self.spec_is_root(s2) && (
                                    #[trigger] enqueued[s2]) ==> records.dom().contains(s2),
                                forall|s2: int|
                                    #[trigger] records.dom().contains(s2) ==> 0 <= s2 < n
                                        && is_prefix_of(records[s2], log)
                                        && self.spec_obligations(records[s2], s2)
                                        == self.spec_total_obligations(s2, vcount as int) && (
                                    forall|k2: int|
                                        0 <= k2 < records[s2].len() ==> (
                                        #[trigger] records[s2][k2]).2 is Ok),
                                forall|q: int|
                                    0 <= q < queue@.len() && !self.spec_is_root(
                                        (#[trigger] queue@[q]).job_index as int,
                                    ) ==> records.dom().contains(queue@[q].job_index as int)
                                        && records[queue@[q].job_index as int].len() <= q,
                            decreases successor_count - t,
                        {
                            proof {
                                self.lemma_job_bounds(scheduled.job_index as int);
                            }
                            let s_idx = self.jobs[scheduled.job_index].required_for[t];
                            proof {
                                assert(self.spec_successors(scheduled.job_index as int)[t as int]
                                    == s_idx);
                                assert(self.spec_successors(scheduled.job_index as int).contains(
                                    s_idx,
                                ));
                                self.lemma_mirror(scheduled.job_index, s_idx);
                                assert(self.spec_predecessors(s_idx as int).contains(
                                    scheduled.job_index,
                                ));
                                assert(self.spec_predecessors(s_idx as int).len() > 0);
                                self.lemma_job_bounds(s_idx as int);
                                assert(self.spec_per_viewport_dependency_count(s_idx as int) * (
                                vcount as int) <= 16777215int * 16777215int) by (nonlinear_arith)
                                    requires
                                        0 <= self.spec_per_viewport_dependency_count(s_idx as int)
                                            <= 16777215int,
                                        0 <= vcount as int <= 16777215int,
                                ;
                            }
                            let total: u64 = self.jobs[s_idx].regular_dependency_count
                                + self.jobs[s_idx].per_viewport_dependency_count * (
                            vcount as u64);
                            proof {
                                assert(self.spec_dependencies_finished(s_idx as int)
                                    <= head as int - 1);
                            }
                            let newc = self.jobs[s_idx].dependencies_finished + 1;
                            let ghost pre_self = *self;
                            let ghost pre_jobs = self.jobs@;
                            self.jobs[s_idx].dependencies_finished = newc;
                            proof {
                                assert forall|j2: int|
                                    0 <= j2 < n && j2 != s_idx implies self.jobs@[j2] == pre_jobs[j2] by {}
                                assert(self.jobs@[s_idx as int].required_for@ == pre_jobs[
                                    s_idx as int].required_for@);
                                assert(self.jobs@[s_idx as int].predecessors@ == pre_jobs[
                                    s_idx as int].predecessors@);
                                self.lemma_same_fields_graph(pre_self);
                                Self::lemma_same_graph_trans(*self, pre_self, pre_sched);
                                assert(self.job_wf(scheduled.job_index as int, n as int));
                                assert(pre_self.spec_dependencies_finished(s_idx as int)
                                    <= head as int - 1);
                                assert(self.spec_dependencies_finished(s_idx as int)
                                    == newc as int);
                                assert(newc as int <= head as int);
                                assert forall|j: int|
                                    0 <= j < n implies 0 <= #[trigger] self.spec_dependencies_finished(
                                    j,
                                ) <= head as int by {
                                    if j != s_idx as int {
                                        assert(0 <= pre_self.spec_dependencies_finished(j)
                                            <= head as int);
                                        assert(self.jobs@[j] == pre_jobs[j]);
                                    } else {
                                        assert(self.spec_dependencies_finished(j)
                                            == newc as int);
                                    }
                                }
                                assert forall|t2: int|
                                    t + 1 <= t2 < successor_count
                                        implies self.spec_dependencies_finished((
                                #[trigger] self.spec_successors(scheduled.job_index as int)[t2])
                                    as int) <= head as int - 1 by {
                                    let s2 = self.spec_successors(scheduled.job_index as int)[t2];
                                    assert(self.spec_successors(scheduled.job_index as int)[
                                        t as int] == s_idx);
                                    assert(s2 != s_idx);
                                    assert(self.jobs@[s2 as int] == pre_jobs[s2 as int]);
                                }
                                assert forall|s2: int|
                                    #[trigger] records.dom().contains(s2) implies self.spec_obligations(
                                    records[s2],
                                    s2,
                                ) == self.spec_total_obligations(s2, vcount as int) by {
                                    Self::lemma_obligations_same_graph(
                                        *self,
                                        pre_self,
                                        records[s2],
                                        s2,
                                    );
                                    assert(self.spec_job_id(s2) == pre_self.spec_job_id(s2));
                                }
                                assert forall|s2: int|
                                    0 <= s2 < n implies #[trigger] self.spec_dependencies_finished(
                                    s2,
                                ) == self.spec_obligations(log, s2) - (
                                if self.spec_successors(scheduled.job_index as int).contains(
                                    s2 as usize,
                                ) {
                                    1int
                                } else {
                                    0int
                                }) + (if exists|t2: int|
                                    0 <= t2 < t + 1 && self.spec_successors(
                                        scheduled.job_index as int,
                                    )[t2] == s2 as usize {
                                    1int
                                } else {
                                    0int
                                }) by {
                                    Self::lemma_obligations_same_graph(*self, pre_self, log, s2);
                                    assert(self.spec_job_id(scheduled.job_index as int)
                                        == pre_self.spec_job_id(scheduled.job_index as int));
                                    assert(self.spec_job_id(s2) == pre_self.spec_job_id(s2));
                                    assert(0 <= pre_self.spec_dependencies_finished(s2));
                                    assert(pre_self.spec_successors(scheduled.job_index as int)
                                        == self.spec_successors(scheduled.job_index as int));
                                    assert(self.spec_successors(scheduled.job_index as int)[
                                        t as int] == s_idx);
                                    if s2 == s_idx as int {
                                        if exists|t2: int|
                                            0 <= t2 < t && self.spec_successors(
                                                scheduled.job_index as int,
                                            )[t2] == s2 as usize {
                                            let t2 = choose|t2: int|
                                                0 <= t2 < t && self.spec_successors(
                                                    scheduled.job_index as int,
                                                )[t2] == s2 as usize;
                                            assert(false);
                                        }
                                        assert(self.spec_dependencies_finished(s2)
                                            == newc as int);
                                    } else {
                                        assert(self.jobs@[s2] == pre_jobs[s2]);
                                        if exists|t2: int|
                                            0 <= t2 < t + 1 && self.spec_successors(
                                                scheduled.job_index as int,
                                            )[t2] == s2 as usize {
                                            let t2 = choose|t2: int|
                                                0 <= t2 < t + 1 && self.spec_successors(
                                                    scheduled.job_index as int,
                                                )[t2] == s2 as usize;
                                            assert(t2 < t);
                                        }
                                    }
                                }
                            }
                            if newc == total {
                                proof {
                                    assert(self.spec_total_obligations(s_idx as int, vcount as int)
                                        > 0);
                                    assert(!enqueued[s_idx as int]);
                                    lemma_count_true_set(enqueued, s_idx as int);
                                    lemma_count_true_bound(enqueued);
                                }
                                let ghost pre_queue = queue@;
                                let ghost c0 = count_true(enqueued);
                                let per_viewport = self.jobs[s_idx].executed_per_viewport;
                                enqueue_job(&mut queue, &snapshot, s_idx, per_viewport);
                                proof {
                                    enqueued = enqueued.update(s_idx as int, true);
                                    assert(count_true(enqueued) == c0 + 1);
                                    lemma_count_true_bound(enqueued);
                                    assert((c0 + 1) * (vcount as int + 1) == c0 * (
                                    vcount as int + 1) + (vcount as int + 1)) by (nonlinear_arith);
                                    assert(queue@.len() <= count_true(enqueued) * (vcount as int
                                        + 1));
                                    assert(count_true(enqueued) * (vcount as int + 1) <= (
                                    n as int) * (vcount as int + 1)) by (nonlinear_arith)
                                        requires
                                            count_true(enqueued) <= n as int,
                                            0 <= vcount as int,
                                    ;
                                    assert forall|k1: int, k2: int|
                                        0 <= k1 < k2 < queue@.len() implies !(queue@[k1].job_index
                                        == queue@[k2].job_index && queue@[k1].viewport == queue@[k2].viewport) by {
                                        if k1 < pre_queue.len() && k2 >= pre_queue.len() {
                                            assert(queue@[k1].job_index != s_idx);
                                        }
                                        if k1 >= pre_queue.len() && k2 >= pre_queue.len() {
                                            if per_viewport {
                                                assert(queue@[k1].viewport == Some(
                                                    snapshot@[k1 - pre_queue.len()],
                                                ));
                                                assert(queue@[k2].viewport == Some(
                                                    snapshot@[k2 - pre_queue.len()],
                                                ));
                                            }
                                        }
                                    }
                                    assert forall|j: int, vx: int|
                                        0 <= j < n && (#[trigger] enqueued[j]) && self.spec_per_viewport(j) && 0 <= vx
                                            < vcount implies instance_queued(queue@, j, Some(#[trigger] snapshot@[vx])) by {
                                        if j == s_idx as int {
                                            assert(queue@[pre_queue.len() + vx].job_index as int == j
                                                && queue@[pre_queue.len() + vx].viewport == Some(snapshot@[vx]));
                                        } else {
                                            lemma_instance_queued_extend(pre_queue, queue@, j, Some(snapshot@[vx]));
                                        }
                                    }
                                    assert forall|j: int|
                                        0 <= j < n && (#[trigger] enqueued[j]) && !self.spec_per_viewport(j) implies instance_queued(
                                        queue@,
                                        j,
                                        None,
                                    ) by {
                                        if j == s_idx as int {
                                            assert(queue@[pre_queue.len() as int].job_index as int == j
                                                && queue@[pre_queue.len() as int].viewport == None::<StandardVersionedIndexId>);
                                        } else {
                                            lemma_instance_queued_extend(pre_queue, queue@, j, None);
                                        }
                                    }
                                    self.lemma_queue_bound(snapshot@, queue@);
                                    self.lemma_prefix_counts(pre_sched, n as int);
                                    assert(self.spec_job_id(s_idx as int) == pre_self.spec_job_id(
                                        s_idx as int,
                                    ));
                                    assert(self.spec_successors(scheduled.job_index as int)[
                                        t as int] == s_idx);
                                    assert(self.spec_dependencies_finished(s_idx as int)
                                        == self.spec_obligations(log, s_idx as int));
                                    assert(self.spec_obligations(log, s_idx as int)
                                        == self.spec_total_obligations(s_idx as int, vcount as int));
                                    let ghost pre_records = records;
                                    records = records.insert(s_idx as int, log);
                                    assert(is_prefix_of(log, log));
                                    assert forall|s2: int|
                                        #[trigger] records.dom().contains(s2) implies 0 <= s2 < n
                                        && is_prefix_of(records[s2], log)
                                        && self.spec_obligations(records[s2], s2)
                                        == self.spec_total_obligations(s2, vcount as int) && (
                                    forall|k2: int|
                                        0 <= k2 < records[s2].len() ==> (
                                        #[trigger] records[s2][k2]).2 is Ok) by {
                                        if s2 != s_idx as int {
                                            assert(pre_records.dom().contains(s2));
                                            assert(records[s2] == pre_records[s2]);
                                        } else {
                                            assert(records[s2] == log);
                                        }
                                    }
                                    assert forall|q: int|
                                        0 <= q < queue@.len() && !self.spec_is_root(
                                            (#[trigger] queue@[q]).job_index as int,
                                        ) implies records.dom().contains(
                                        queue@[q].job_index as int,
                                    ) && records[queue@[q].job_index as int].len() <= q by {
                                        if q < pre_queue.len() {
                                            assert(queue@[q] == pre_queue[q]);
                                            assert(queue@[q].job_index != s_idx);
                                        } else {
                                            assert(queue@[q].job_index == s_idx);
                                            assert(records[s_idx as int].len() == log.len());
                                            assert(log.len() == head);
                                            assert(head <= pre_queue.len());
                                        }
                                    }
                                }
                            } else {
                                proof {
                                    assert forall|j: int|
                                        0 <= j < n implies ((#[trigger] enqueued[j]) <==> (
                                    self.spec_is_root(j) || (self.spec_total_obligations(
                                        j,
                                        vcount as int,
                                    ) > 0 && self.spec_dependencies_finished(j)
                                        >= self.spec_total_obligations(j, vcount as int)))) by {
                                        if j != s_idx as int {
                                            assert(self.jobs@[j] == pre_jobs[j]);
                                        }
                                    }
                                }
                            }
                            t = t + 1;
                        }
                        proof {
                            assert forall|s2: int|
                                0 <= s2 < n implies #[trigger] self.spec_dependencies_finished(
                                s2,
                            ) == self.spec_obligations(log, s2) by {
                                if self.spec_successors(scheduled.job_index as int).contains(
                                    s2 as usize,
                                ) {
                                    let t2 = choose|t2: int|
                                        0 <= t2 < self.spec_successors(
                                            scheduled.job_index as int,
                                        ).len() && self.spec_successors(
                                            scheduled.job_index as int,
                                        )[t2] == s2 as usize;
                                } else {
                                    if exists|t2: int|
                                        0 <= t2 < successor_count && self.spec_successors(
                                            scheduled.job_index as int,
                                        )[t2] == s2 as usize {
                                        let t2 = choose|t2: int|
                                            0 <= t2 < successor_count && self.spec_successors(
                                                scheduled.job_index as int,
                                            )[t2] == s2 as usize;
                                        assert(self.spec_successors(
                                            scheduled.job_index as int,
                                        ).contains(s2 as usize));
                                    }
                                }
                            }
                        }
                    }
                },
                Err(e) => {
                    let ghost prelog = log;
                    proof {
                        log = log.push(
                            (
                                scheduled.job_index as int,
                                scheduled.viewport,
                                Err::<(), Error>(e),
                            ),
                        );
                        assert(log.last().2 == anchored_res);
                        assert(log.drop_last() =~= prelog);
                        assert forall|s2: int|
                            0 <= s2 < n implies #[trigger] self.spec_obligations(log, s2)
                            == self.spec_obligations(prelog, s2) by {}
                        assert forall|s2: int|
                            #[trigger] records.dom().contains(s2) implies is_prefix_of(
                            records[s2],
                            log,
                        ) by {
                            assert(is_prefix_of(records[s2], prelog));
                        }
                    }
                    failed = Some(e);
                },
            }
        }
        proof {
            if pre_sched.spec_job_count() == 0 {
                assert(n == 0);
                assert(pre_sched.count_regular_prefix(0) == 0);
                assert(pre_sched.count_per_viewport_prefix(0) == 0);
                assert(pre_sched.spec_expected_executions(vcount as int)
                    == pre_sched.count_regular_prefix(0) + pre_sched.count_per_viewport_prefix(0)
                    * (vcount as int));
                assert(pre_sched.count_per_viewport_prefix(0) * (vcount as int) == 0)
                    by (nonlinear_arith)
                    requires
                        pre_sched.count_per_viewport_prefix(0) == 0,
                ;
                assert(pre_sched.spec_expected_executions(vcount as int) == 0);
                assert(expected == 0);
                assert(log.len() == 0);
                assert(failed is None);
                assert(jobs_finished == 0);
                assert(sr.spec_spawn_requests().len() == 0);
            }
            assert(expected as int == pre_sched.spec_expected_executions(vcount as int));
            assert forall|k: int|
                0 <= k < log.len() implies {
                let entry = #[trigger] log[k];
                &&& 0 <= entry.0 < pre_sched.spec_job_count()
                &&& (entry.1 is Some <==> pre_sched.spec_per_viewport(entry.0))
                &&& (entry.1 is Some ==> old(state).spec_viewports().spec_contains(
                    entry.1.unwrap(),
                ))
            } by {
                assert(self.entry_ok(queue@[k], snapshot@));
                let jx = queue@[k].job_index as int;
                assert(self.spec_job_id(jx) == pre_sched.spec_job_id(jx));
                if queue@[k].viewport is Some {
                    assert(snapshot@.contains(queue@[k].viewport.unwrap()));
                }
            }
            assert forall|k1: int, k2: int|
                0 <= k1 < k2 < log.len() implies !(log[k1].0 == log[k2].0 && log[k1].1
                == log[k2].1) by {
                assert(!(queue@[k1].job_index == queue@[k2].job_index && queue@[k1].viewport
                    == queue@[k2].viewport));
            }
            assert forall|k: int, p: usize|
                0 <= k < log.len() && (#[trigger] pre_sched.spec_predecessors(
                    log[k].0,
                ).contains(p)) implies {
                &&& (!pre_sched.spec_per_viewport(p as int) ==> exists|k2: int|
                    0 <= k2 < k && log[k2].0 == p as int && log[k2].1 is None)
                &&& (pre_sched.spec_per_viewport(p as int) ==> forall|
                    v: StandardVersionedIndexId,
                |
                    snapshot@.contains(v) ==> exists|k2: int|
                        0 <= k2 < k && (#[trigger] log[k2]).0 == p as int && log[k2].1 == Some(
                            v,
                        ))
            } by {
                let s2 = log[k].0;
                assert(queue@[k].job_index as int == s2);
                assert(self.entry_ok(queue@[k], snapshot@));
                assert(self.spec_job_id(s2) == pre_sched.spec_job_id(s2));
                assert(self.spec_predecessors(s2) == pre_sched.spec_predecessors(s2));
                let preds = self.spec_predecessors(s2);
                assert(preds.contains(p));
                let tp = choose|tp: int| 0 <= tp < preds.len() && preds[tp] == p;
                assert(preds.len() > 0);
                assert(!self.spec_is_root(s2));
                assert(records.dom().contains(s2));
                let r = records[s2];
                assert(r.len() <= k);
                assert(is_prefix_of(r, log));
                assert forall|j1: int, j2: int|
                    0 <= j1 < j2 < r.len() implies !(r[j1].0 == r[j2].0 && r[j1].1
                    == r[j2].1) by {
                    assert(r[j1] == log[j1] && r[j2] == log[j2]);
                }
                assert forall|j1: int|
                    0 <= j1 < r.len() implies 0 <= (#[trigger] r[j1]).0 < n && r[j1].2
                    is Ok by {
                    assert(r[j1] == log[j1]);
                    assert(self.entry_ok(queue@[j1], snapshot@));
                }
                self.lemma_obligations_split(r, (s2 as usize));
                assert(((s2 as usize) as int) == s2);
                assert(self.spec_obligations(r, s2) == self.spec_total_obligations(
                    s2,
                    vcount as int,
                ));
                assert(self.job_wf(s2, n as int));
                self.lemma_total_as_sum(preds, preds.len() as int, vcount as int);
                assert(self.sum_pred_instances(preds, preds.len() as int, vcount as int)
                    == self.spec_total_obligations(s2, vcount as int));
                assert forall|t2: int|
                    0 <= t2 < preds.len() implies entries_of(r, (#[trigger] preds[t2]) as int)
                    <= (if self.spec_per_viewport(preds[t2] as int) {
                    vcount as int
                } else {
                    1int
                }) by {
                    assert forall|j1: int|
                        0 <= j1 < r.len() && (#[trigger] r[j1]).0 == preds[t2] as int implies (
                    r[j1].1 is Some <==> self.spec_per_viewport(preds[t2] as int)) && (r[j1].1
                        is Some ==> snapshot@.contains(r[j1].1.unwrap())) by {
                        assert(r[j1] == log[j1]);
                        assert(self.entry_ok(queue@[j1], snapshot@));
                    }
                    self.lemma_job_entries(r, preds[t2], snapshot@);
                }
                self.lemma_sum_forces_each(preds, preds.len() as int, vcount as int, r);
                assert(entries_of(r, p as int) == (if self.spec_per_viewport(p as int) {
                    vcount as int
                } else {
                    1int
                }));
                assert forall|j1: int|
                    0 <= j1 < r.len() && (#[trigger] r[j1]).0 == p as int implies (r[j1].1
                    is Some <==> self.spec_per_viewport(p as int)) && (r[j1].1 is Some
                    ==> snapshot@.contains(r[j1].1.unwrap())) by {
                    assert(r[j1] == log[j1]);
                    assert(self.entry_ok(queue@[j1], snapshot@));
                }
                self.lemma_job_entries(r, p, snapshot@);
                assert(self.spec_job_id(p as int) == pre_sched.spec_job_id(p as int));
                assert(self.spec_per_viewport(p as int) == pre_sched.spec_per_viewport(
                    p as int,
                ));
                if !pre_sched.spec_per_viewport(p as int) {
                    let j1 = choose|j1: int|
                        0 <= j1 < r.len() && r[j1].0 == p as int && r[j1].1 is None;
                    assert(log[j1].0 == p as int && log[j1].1 is None && 0 <= j1 < k);
                } else {
                    assert forall|v: StandardVersionedIndexId|
                        snapshot@.contains(v) implies exists|k2: int|
                        0 <= k2 < k && (#[trigger] log[k2]).0 == p as int && log[k2].1 == Some(
                            v,
                        ) by {
                        let j1 = choose|j1: int|
                            0 <= j1 < r.len() && (#[trigger] r[j1]).0 == p as int && r[j1].1
                                == Some(v);
                        assert(log[j1].0 == p as int && log[j1].1 == Some(v) && 0 <= j1 < k);
                    }
                }
            }
            assert forall|k: int, p: usize, v: StandardVersionedIndexId|
                0 <= k < log.len() && (#[trigger] pre_sched.spec_predecessors(
                    log[k].0,
                ).contains(p)) && pre_sched.spec_per_viewport(p as int) && (#[trigger] old(
                    state,
                ).spec_viewports().spec_contains(v)) implies exists|k2: int|
                0 <= k2 < k && log[k2].0 == p as int && log[k2].1 == Some(v) by {
                assert(snapshot@.contains(v));
            }
        }
        proof {
            if failed is None && jobs_finished == expected {
                let pairs = Seq::new(log.len(), |k: int| (log[k].0, log[k].1));
                let insts = pre_sched.spec_instances_prefix(snapshot@, n as int);
                pre_sched.lemma_instances_len(snapshot@, n as int);
                pre_sched.lemma_instances_distinct(snapshot@, n as int);
                assert(insts.len() == expected as int);
                assert(pairs.len() == expected as int);
                assert forall|k: int|
                    0 <= k < pairs.len() implies insts.contains(#[trigger] pairs[k]) by {
                    assert(self.entry_ok(queue@[k], snapshot@));
                    let jx = queue@[k].job_index as int;
                    assert(self.spec_job_id(jx) == pre_sched.spec_job_id(jx));
                    pre_sched.lemma_instances_contains(snapshot@, n as int, pairs[k]);
                }
                assert(pairs.no_duplicates()) by {
                    assert forall|k1: int, k2: int|
                        0 <= k1 < k2 < pairs.len() implies pairs[k1] != pairs[k2] by {
                        assert(!(log[k1].0 == log[k2].0 && log[k1].1 == log[k2].1));
                    }
                }
                pairs.unique_seq_to_set();
                insts.unique_seq_to_set();
                broadcast use vstd::seq_lib::seq_to_set_is_finite;

                assert(pairs.to_set().subset_of(insts.to_set()));
                lemma_subset_equal_card(pairs.to_set(), insts.to_set());
                assert forall|j: int|
                    0 <= j < pre_sched.spec_job_count() && !(#[trigger] pre_sched.spec_per_viewport(
                        j,
                    )) implies exists|k: int|
                    0 <= k < log.len() && log[k].0 == j && log[k].1 is None by {
                    let e = (j, None::<StandardVersionedIndexId>);
                    pre_sched.lemma_instances_contains(snapshot@, n as int, e);
                    assert(insts.contains(e));
                    assert(pairs.to_set().contains(e));
                    assert(pairs.contains(e));
                    let k = choose|k: int| 0 <= k < pairs.len() && pairs[k] == e;
                    assert(log[k].0 == j && log[k].1 is None);
                }
                assert forall|j: int, vx: int|
                    #![trigger pre_sched.spec_per_viewport(j), snapshot@[vx]]
                    0 <= j < pre_sched.spec_job_count() && pre_sched.spec_per_viewport(j) && 0
                        <= vx < snapshot@.len() implies exists|k: int|
                    0 <= k < log.len() && log[k].0 == j && log[k].1 == Some(snapshot@[vx]) by {
                    let e = (j, Some(snapshot@[vx]));
                    assert(snapshot@.contains(snapshot@[vx]));
                    pre_sched.lemma_instances_contains(snapshot@, n as int, e);
                    assert(insts.contains(e));
                    assert(pairs.to_set().contains(e));
                    assert(pairs.contains(e));
                    let k = choose|k: int| 0 <= k < pairs.len() && pairs[k] == e;
                    assert(log[k].0 == j && log[k].1 == Some(snapshot@[vx]));
                }
                assert forall|j: int, v: StandardVersionedIndexId|
                    0 <= j < old(self).spec_job_count() && (#[trigger] old(
                        self,
                    ).spec_per_viewport(j)) && (#[trigger] old(
                        state,
                    ).spec_viewports().spec_contains(v)) implies exists|k: int|
                    0 <= k < log.len() && log[k].0 == j && log[k].1 == Some(v) by {
                    assert(snapshot@.contains(v));
                    let vx = choose|vx: int| 0 <= vx < snapshot@.len() && snapshot@[vx] == v;
                    assert(pre_sched.spec_per_viewport(j));
                    let k = choose|k: int|
                        0 <= k < log.len() && log[k].0 == j && log[k].1 == Some(snapshot@[vx]);
                }
            }
        }
        let mut result: Result<(), Error> = match failed {
            Some(e) => {
                let r2: Result<(), Error> = Err(e);
                proof {
                    assert(log.len() >= 1 && log[log.len() - 1].2 == r2);
                }
                r2
            },
            None => {
                if jobs_finished == expected {
                    proof {
                        assert(log.len() as int == pre_sched.spec_expected_executions(
                            vcount as int,
                        ));
                    }
                    Ok(())
                } else {
                    proof {
                        if vcount >= 1 && exists|ord: Seq<int>|
                            pre_sched.spec_topological_order(ord) {
                            let ord = choose|ord: Seq<int>|
                                pre_sched.spec_topological_order(ord);
                            assert forall|kk: int, p: usize|
                                0 <= kk < ord.len() && (
                            #[trigger] self.spec_predecessors(ord[kk]).contains(
                                p,
                            )) implies exists|k2: int| 0 <= k2 < kk && ord[k2] == p as int by {
                                assert(0 <= ord[kk] < pre_sched.spec_job_count());
                                assert(self.spec_job_id(ord[kk]) == pre_sched.spec_job_id(
                                    ord[kk],
                                ));
                                assert(self.spec_predecessors(ord[kk])
                                    == pre_sched.spec_predecessors(ord[kk]));
                                assert(pre_sched.spec_predecessors(ord[kk]).contains(p));
                            }
                            assert(self.spec_topological_order(ord));
                            assert(head == queue@.len());
                            assert forall|j: int, vx: int|
                                0 <= j < n && (#[trigger] enqueued[j]) && self.spec_per_viewport(
                                    j,
                                ) && 0 <= vx < vcount implies instance_logged(
                                log,
                                j,
                                Some(#[trigger] snapshot@[vx]),
                            ) by {
                                let q = choose|q: int|
                                    0 <= q < queue@.len() && (#[trigger] queue@[q]).job_index
                                        as int == j && queue@[q].viewport == Some(
                                        snapshot@[vx],
                                    );
                                assert(log[q].0 == j && log[q].1 == Some(snapshot@[vx]));
                            }
                            assert forall|j: int|
                                0 <= j < n && (#[trigger] enqueued[j]) && !self.spec_per_viewport(
                                    j,
                                ) implies instance_logged(log, j, None) by {
                                let q = choose|q: int|
                                    0 <= q < queue@.len() && (#[trigger] queue@[q]).job_index
                                        as int == j && queue@[q].viewport is None;
                                assert(log[q].0 == j && log[q].1 is None);
                            }
                            assert forall|k2: int|
                                0 <= k2 < log.len() implies 0 <= (#[trigger] log[k2]).0 < n
                                && log[k2].2 is Ok && (log[k2].1 is Some
                                <==> self.spec_per_viewport(log[k2].0)) && (log[k2].1 is Some
                                ==> snapshot@.contains(log[k2].1.unwrap())) by {
                                assert(self.entry_ok(queue@[k2], snapshot@));
                                assert(log[k2].0 == queue@[k2].job_index as int && log[k2].1
                                    == queue@[k2].viewport);
                            }
                            assert forall|j: int|
                                0 <= j < n implies ((#[trigger] enqueued[j]) <==> (
                            self.spec_is_root(j) || (self.spec_total_obligations(
                                j,
                                vcount as int,
                            ) > 0 && self.spec_obligations(log, j)
                                >= self.spec_total_obligations(j, vcount as int)))) by {
                                assert(self.spec_dependencies_finished(j)
                                    == self.spec_obligations(log, j));
                            }
                            self.lemma_frame_complete(
                                log,
                                snapshot@,
                                enqueued,
                                ord,
                                ord.len() as int,
                            );
                            ord.unique_seq_to_set();
                            broadcast use vstd::seq_lib::seq_to_set_is_finite;

                            let range = vstd::set_lib::set_int_range(0, n as int);
                            vstd::set_lib::lemma_int_range(0, n as int);
                            assert(ord.to_set().subset_of(range));
                            lemma_subset_equal_card(ord.to_set(), range);
                            assert forall|j: int| 0 <= j < n implies #[trigger] enqueued[j] by {
                                assert(range.contains(j));
                                assert(ord.to_set().contains(j));
                                assert(ord.contains(j));
                                let i = choose|i: int| 0 <= i < ord.len() && ord[i] == j;
                                assert(enqueued[ord[i]]);
                            }
                            let pairs = Seq::new(
                                log.len(),
                                |k2: int| (log[k2].0, log[k2].1),
                            );
                            let insts = self.spec_instances_prefix(snapshot@, n as int);
                            self.lemma_instances_distinct(snapshot@, n as int);
                            self.lemma_instances_len(snapshot@, n as int);
                            assert forall|i: int| 0 <= i < insts.len() implies pairs.contains(
                                #[trigger] insts[i],
                            ) by {
                                let e = insts[i];
                                self.lemma_instances_contains(snapshot@, n as int, e);
                                assert(0 <= e.0 < n);
                                assert(enqueued[e.0]);
                                if self.spec_per_viewport(e.0) {
                                    assert(snapshot@.contains(e.1.unwrap()));
                                    let vx = choose|vx: int|
                                        0 <= vx < snapshot@.len() && snapshot@[vx]
                                            == e.1.unwrap();
                                    assert(instance_logged(log, e.0, Some(snapshot@[vx])));
                                    let k2 = choose|k2: int|
                                        0 <= k2 < log.len() && (#[trigger] log[k2]).0 == e.0
                                            && log[k2].1 == Some(snapshot@[vx]);
                                    assert(pairs[k2] == e);
                                } else {
                                    assert(e.1 is None);
                                    assert(instance_logged(log, e.0, None));
                                    let k2 = choose|k2: int|
                                        0 <= k2 < log.len() && (#[trigger] log[k2]).0 == e.0
                                            && log[k2].1 is None;
                                    assert(pairs[k2] == e);
                                }
                            }
                            assert forall|k1: int, k2: int|
                                0 <= k1 < k2 < pairs.len() implies pairs[k1] != pairs[k2] by {
                                assert(!(log[k1].0 == log[k2].0 && log[k1].1 == log[k2].1));
                            }
                            assert(pairs.no_duplicates());
                            pairs.unique_seq_to_set();
                            insts.unique_seq_to_set();
                            assert(insts.to_set().subset_of(pairs.to_set()));
                            lemma_len_subset(insts.to_set(), pairs.to_set());
                            assert(insts.len() <= pairs.len());
                            self.lemma_prefix_counts(pre_sched, n as int);
                            assert(insts.len() == expected as int);
                            assert(log.len() >= expected as int);
                            assert forall|i: int| 0 <= i < pairs.len() implies insts.contains(
                                #[trigger] pairs[i],
                            ) by {
                                self.lemma_instances_contains(snapshot@, n as int, pairs[i]);
                                assert(self.entry_ok(queue@[i], snapshot@));
                                assert(log[i].0 == queue@[i].job_index as int && log[i].1
                                    == queue@[i].viewport);
                            }
                            assert(pairs.to_set().subset_of(insts.to_set()));
                            lemma_len_subset(pairs.to_set(), insts.to_set());
                            assert(log.len() == expected as int);
                            assert(false);
                        }
                    }
                    Err(
                        Error::new(
                            String::from_str("frame did not complete"),
                            SourceLocation::TextFile {
                                filename: String::from_str("scheduler"),
                                line: 0,
                            },
                        ),
                    )
                }
            },
        };
        let ghost post_entities = state.spec_entities();
        let ghost frame_despawns = sr.spec_despawn_requests();
        let ghost frame_spawns = sr.spec_spawn_requests().len() as int;
        if result.is_ok() {
            let complete = state.apply_entity_requests(
                &sr.despawned_entities,
                sr.spawned_entities.len(),
            );
            if !complete {
                result = Err(
                    Error::new(
                        String::from_str("entity id space exhausted"),
                        SourceLocation::TextFile {
                            filename: String::from_str("scheduler"),
                            line: 0,
                        },
                    ),
                );
            }
        }
        let ghost before_reset = *self;
        self.reset_counters();
        proof {
            Self::lemma_same_graph_trans(*self, before_reset, pre_sched);
        }
        let ghost before_ghost = *self;
        self.last_run = Ghost(log);
        self.last_frame_entities = Ghost(post_entities);
        self.last_despawns = Ghost(frame_despawns);
        self.last_spawn_count = Ghost(frame_spawns);
        proof {
            self.lemma_same_fields_graph(before_ghost);
            Self::lemma_same_graph_trans(*self, before_ghost, pre_sched);
            assert forall|j: int|
                0 <= j < self.spec_job_count() implies self.spec_dependencies_finished(j)
                == 0 by {
                assert(before_ghost.spec_dependencies_finished(j) == 0);
                assert(self.jobs@[j] == before_ghost.jobs@[j]);
            }
            assert(self.wf());
        }
        result
    }
}

} // verus!
