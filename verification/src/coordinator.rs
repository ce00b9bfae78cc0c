//! Bounded-concurrency execution coordination.
//!
//! A run walks the ordered, address-valid host list in consecutive batches of
//! at most the concurrency limit. The coordinator hands out one batch at a
//! time and accepts the batch's terminal outcomes — in whatever order the
//! concurrent executions finished — before it hands out the next, so batches
//! never overlap in time and no more executions are in flight than the limit
//! allows. Accepted outcomes are put back into original-index order and
//! appended to the run-wide result, one outcome per dispatched host, whether
//! the execution ended in an exit code or in a connection error.

use vstd::prelude::*;

use crate::resolve::{
    clone_resolved, distinct_indices, rviews, sorted_by_index, ResolvedHost, ResolvedHostV,
};
use crate::util::{bytes_eq, copy_bytes};

verus! {

/// The terminal result of one execution: an exit code when the command ran,
/// or a connection error when the host could not be reached — never both.
pub struct ExecutionOutcome {
    pub name: Vec<u8>,
    pub original_index: usize,
    pub exit_code: Option<i32>,
    pub stdout: Vec<u8>,
    pub stderr: Vec<u8>,
    pub connection_error: Option<Vec<u8>>,
}

/// Ghost image of an [`ExecutionOutcome`].
pub struct ExecutionOutcomeV {
    pub name: Seq<u8>,
    pub original_index: int,
    pub exit_code: Option<i32>,
    pub stdout: Seq<u8>,
    pub stderr: Seq<u8>,
    pub connection_error: Option<Seq<u8>>,
}

impl View for ExecutionOutcome {
    type V = ExecutionOutcomeV;

    open spec fn view(&self) -> ExecutionOutcomeV {
        ExecutionOutcomeV {
            name: self.name@,
            original_index: self.original_index as int,
            exit_code: self.exit_code,
            stdout: self.stdout@,
            stderr: self.stderr@,
            connection_error: match self.connection_error {
                Some(m) => Some(m@),
                None => None,
            },
        }
    }
}

/// The ghost images of a buffer of outcomes.
pub open spec fn oviews(s: Seq<ExecutionOutcome>) -> Seq<ExecutionOutcomeV> {
    s.map_values(|o: ExecutionOutcome| o@)
}

/// An outcome is terminal: exactly one of exit code and connection error.
pub open spec fn outcome_terminal(o: ExecutionOutcomeV) -> bool {
    o.exit_code is Some <==> o.connection_error is None
}

/// `o` is the outcome of host `h`.
pub open spec fn outcome_for(o: ExecutionOutcomeV, h: ResolvedHostV) -> bool {
    o.original_index == h.original_index && o.name == h.name
}

/// Some entry of `rs` is the outcome of host `h`.
pub open spec fn has_result_for(rs: Seq<ExecutionOutcomeV>, h: ResolvedHostV) -> bool {
    exists|i: int| 0 <= i < rs.len() && outcome_for(#[trigger] rs[i], h)
}

/// `rs` holds exactly one outcome per host of `batch`: same count, every
/// host represented, no index twice. Nothing is asked of what each outcome
/// holds — a connection error is as good a terminal outcome as an exit code.
pub open spec fn results_match(rs: Seq<ExecutionOutcomeV>, batch: Seq<ResolvedHostV>) -> bool {
    &&& rs.len() == batch.len()
    &&& forall|j: int| 0 <= j < batch.len() ==> has_result_for(rs, #[trigger] batch[j])
    &&& forall|i1: int, i2: int|
        0 <= i1 < i2 < rs.len() ==> (#[trigger] rs[i1]).original_index
            != (#[trigger] rs[i2]).original_index
}

/// Copies an outcome.
pub fn clone_outcome(o: &ExecutionOutcome) -> (r: ExecutionOutcome)
    ensures
        r@ == o@,
{
    let connection_error = match &o.connection_error {
        Some(m) => Some(copy_bytes(m)),
        None => None,
    };
    ExecutionOutcome {
        name: copy_bytes(&o.name),
        original_index: o.original_index,
        exit_code: o.exit_code,
        stdout: copy_bytes(&o.stdout),
        stderr: copy_bytes(&o.stderr),
        connection_error,
    }
}

/// Where a run stands: between batches, waiting on a dispatched batch, or
/// finished.
#[derive(Clone, Copy, Debug, PartialEq, Eq, Structural)]
pub enum Phase {
    Idle,
    Awaiting,
    Done,
}

/// The state of one run: the ordered, address-valid hosts, the concurrency
/// limit, how far dispatch has come, and the outcomes aggregated so far.
pub struct Coordinator {
    pub hosts: Vec<ResolvedHost>,
    pub limit: usize,
    pub batch_start: usize,
    pub dispatched: usize,
    pub outcomes: Vec<ExecutionOutcome>,
    pub phase: Phase,
}

impl Coordinator {
    /// The run's invariant: hosts are ordered by distinct original indices
    /// and all carry addresses; dispatch advances batch by batch, the open
    /// batch never wider than the limit; and the aggregated outcomes line up
    /// one-to-one, in order, with the hosts already accounted for.
    pub open spec fn wf(&self) -> bool {
        &&& self.limit >= 1
        &&& self.batch_start <= self.dispatched <= self.hosts@.len()
        &&& sorted_by_index(rviews(self.hosts@))
        &&& distinct_indices(rviews(self.hosts@))
        &&& forall|i: int|
            0 <= i < self.hosts@.len() ==> (#[trigger] rviews(self.hosts@)[i]).address is Some
        &&& match self.phase {
            Phase::Awaiting => {
                &&& self.batch_start < self.dispatched
                &&& self.dispatched - self.batch_start <= self.limit
                &&& self.outcomes@.len() == self.batch_start
            },
            Phase::Idle => self.outcomes@.len() == self.dispatched && self.batch_start
                == self.dispatched,
            Phase::Done => self.outcomes@.len() == self.dispatched && self.batch_start
                == self.dispatched && self.dispatched == self.hosts@.len(),
        }
        &&& forall|i: int|
            0 <= i < self.outcomes@.len() ==> outcome_for(
                #[trigger] oviews(self.outcomes@)[i],
                rviews(self.hosts@)[i],
            )
    }

    /// Starts a run over the ordered, address-valid host list.
    pub fn new(hosts: Vec<ResolvedHost>, limit: usize) -> (c: Coordinator)
        requires
            limit >= 1,
            sorted_by_index(rviews(hosts@)),
            distinct_indices(rviews(hosts@)),
            forall|i: int| 0 <= i < hosts@.len() ==> (#[trigger] rviews(hosts@)[i]).address is Some,
        ensures
            c.wf(),
            c.phase == Phase::Idle,
            c.hosts@ == hosts@,
            c.limit == limit,
            c.dispatched == 0,
            c.outcomes@.len() == 0,
    {
        Coordinator {
            hosts,
            limit,
            batch_start: 0,
            dispatched: 0,
            outcomes: Vec::new(),
            phase: Phase::Idle,
        }
    }

    /// Hands out the next batch: the next consecutive slice of the host
    /// list, exactly the concurrency limit wide while that many hosts
    /// remain — only the last batch may be smaller — and never before the
    /// previous batch has been accounted for. `None` when every host has
    /// been dispatched.
    pub fn next_batch(&mut self) -> (batch: Option<Vec<ResolvedHost>>)
        requires
            old(self).wf(),
            old(self).phase == Phase::Idle,
        ensures
            final(self).wf(),
            final(self).hosts@ == old(self).hosts@,
            final(self).limit == old(self).limit,
            final(self).outcomes@ == old(self).outcomes@,
            match batch {
                None => {
                    &&& final(self).phase == Phase::Done
                    &&& final(self).dispatched == old(self).dispatched
                    &&& old(self).dispatched == old(self).hosts@.len()
                },
                Some(b) => {
                    &&& final(self).phase == Phase::Awaiting
                    &&& 1 <= b@.len() <= old(self).limit
                    &&& b@.len() == (if old(self).hosts@.len() - old(self).dispatched
                        >= old(self).limit {
                        old(self).limit as int
                    } else {
                        old(self).hosts@.len() - old(self).dispatched
                    })
                    &&& final(self).batch_start == old(self).dispatched
                    &&& final(self).dispatched == old(self).dispatched + b@.len()
                    &&& rviews(b@) == rviews(old(self).hosts@).subrange(
                        old(self).dispatched as int,
                        old(self).dispatched + b@.len(),
                    )
                },
            },
    {
        let n = self.hosts.len();
        if self.dispatched >= n {
            self.phase = Phase::Done;
            return None;
        }
        let end: usize = if n - self.dispatched > self.limit {
            self.dispatched + self.limit
        } else {
            n
        };
        let mut b: Vec<ResolvedHost> = Vec::new();
        let start = self.dispatched;
        proof {
            assert(rviews(b@) =~= rviews(self.hosts@).subrange(start as int, start as int));
        }
        let mut k: usize = start;
        while k < end
            invariant
                start <= k <= end <= self.hosts@.len(),
                rviews(b@) == rviews(self.hosts@).subrange(start as int, k as int),
                b@.len() == k - start,
            decreases end - k,
        {
            let h = clone_resolved(&self.hosts[k]);
            b.push(h);
            proof {
                assert(rviews(b@) =~= rviews(self.hosts@).subrange(start as int, k + 1 as int));
            }
            k = k + 1;
        }
        self.batch_start = self.dispatched;
        self.dispatched = end;
        self.phase = Phase::Awaiting;
        Some(b)
    }

    /// Accepts the terminal outcomes of the open batch — one per dispatched
    /// host, arriving in any order — restores them to original-index order
    /// and appends them to the run-wide result. A connection failure on one
    /// host is an outcome like any other: it is recorded and takes nothing
    /// from the other hosts of this or any later batch.
    pub fn batch_done(&mut self, results: &Vec<ExecutionOutcome>)
        requires
            old(self).wf(),
            old(self).phase == Phase::Awaiting,
            results_match(
                oviews(results@),
                rviews(old(self).hosts@).subrange(
                    old(self).batch_start as int,
                    old(self).dispatched as int,
                ),
            ),
        ensures
            final(self).wf(),
            final(self).phase == Phase::Idle,
            final(self).hosts@ == old(self).hosts@,
            final(self).limit == old(self).limit,
            final(self).dispatched == old(self).dispatched,
            final(self).outcomes@.len() == old(self).dispatched,
            forall|k: int|
                0 <= k < old(self).outcomes@.len() ==> #[trigger] oviews(final(self).outcomes@)[k]
                    == oviews(old(self).outcomes@)[k],
            forall|k: int|
                old(self).outcomes@.len() <= k < final(self).outcomes@.len() ==> outcome_for(
                    #[trigger] oviews(final(self).outcomes@)[k],
                    rviews(old(self).hosts@)[k],
                ) && oviews(results@).contains(oviews(final(self).outcomes@)[k]),
    {
        let ghost batch = rviews(old(self).hosts@).subrange(
            old(self).batch_start as int,
            old(self).dispatched as int,
        );
        let start = self.batch_start;
        let stop = self.dispatched;
        let mut j: usize = start;
        while j < stop
            invariant
                start <= j <= stop,
                self.hosts@ == old(self).hosts@,
                self.limit == old(self).limit,
                self.batch_start == old(self).batch_start,
                self.dispatched == old(self).dispatched,
                self.phase == old(self).phase,
                start == old(self).batch_start,
                stop == old(self).dispatched,
                old(self).wf(),
                results_match(oviews(results@), batch),
                batch == rviews(old(self).hosts@).subrange(start as int, stop as int),
                self.outcomes@.len() == j,
                forall|k: int|
                    0 <= k < start ==> #[trigger] oviews(self.outcomes@)[k] == oviews(
                        old(self).outcomes@,
                    )[k],
                forall|k: int|
                    start <= k < j ==> outcome_for(
                        #[trigger] oviews(self.outcomes@)[k],
                        rviews(old(self).hosts@)[k],
                    ) && oviews(results@).contains(oviews(self.outcomes@)[k]),
            decreases stop - j,
        {
            let ghost host = rviews(old(self).hosts@)[j as int];
            proof {
                assert(batch[j - start] == host);
                assert(has_result_for(oviews(results@), host));
            }
            let target = self.hosts[j].original_index;
            proof {
                assert(rviews(self.hosts@)[j as int] == self.hosts@[j as int]@);
                assert(host.original_index == target);
            }
            let mut i: usize = 0;
            let mut found: bool = false;
            while i < results.len()
                invariant_except_break
                    !found,
                invariant
                    i <= results@.len(),
                    host.original_index == target,
                    forall|p: int|
                        0 <= p < i ==> (#[trigger] oviews(results@)[p]).original_index
                            != host.original_index,
                ensures
                    i < results@.len() ==> found && oviews(results@)[i as int].original_index
                        == host.original_index,
                    i >= results@.len() ==> forall|p: int|
                        0 <= p < results@.len() ==> (#[trigger] oviews(
                            results@,
                        )[p]).original_index != host.original_index,
                decreases results@.len() - i,
            {
                proof {
                    assert(oviews(results@)[i as int] == results@[i as int]@);
                }
                if results[i].original_index == target {
                    found = true;
                    break;
                }
                i = i + 1;
            }
            if !found {
                proof {
                    let w = choose|w: int|
                        0 <= w < oviews(results@).len() && outcome_for(
                            oviews(results@)[w],
                            host,
                        );
                    assert(oviews(results@)[w].original_index == host.original_index);
                    assert(false);
                }
                unreached()
            }
            let picked = clone_outcome(&results[i]);
            proof {
                let rv = oviews(results@);
                assert(rv[i as int] == results@[i as int]@);
                let w = choose|w: int| 0 <= w < rv.len() && outcome_for(rv[w], host);
                if w != i {
                    assert(rv[w].original_index == rv[i as int].original_index);
                    assert(false);
                }
                assert(outcome_for(picked@, host));
                assert(rv.contains(picked@)) by {
                    assert(rv[i as int] == picked@);
                }
            }
            let ghost prev = self.outcomes@;
            self.outcomes.push(picked);
            proof {
                assert(oviews(self.outcomes@) =~= oviews(prev).push(picked@));
                assert(forall|k: int|
                    0 <= k < prev.len() ==> #[trigger] oviews(self.outcomes@)[k] == oviews(
                        prev,
                    )[k]);
            }
            j = j + 1;
        }
        self.phase = Phase::Idle;
        self.batch_start = stop;
    }

    /// Hands back the run's aggregated outcomes: one per dispatched host, in
    /// original-index order.
    pub fn finish(self) -> (r: Vec<ExecutionOutcome>)
        requires
            self.wf(),
            self.phase == Phase::Done,
        ensures
            r@ == self.outcomes@,
            r@.len() == self.hosts@.len(),
            forall|i: int|
                0 <= i < r@.len() ==> outcome_for(
                    #[trigger] oviews(r@)[i],
                    rviews(self.hosts@)[i],
                ),
            forall|i: int, j: int|
                0 <= i < j < r@.len() ==> #[trigger] oviews(r@)[i].original_index
                    <= #[trigger] oviews(r@)[j].original_index,
    {
        proof {
            assert forall|i: int, j: int|
                0 <= i < j < self.outcomes@.len() implies #[trigger] oviews(
                self.outcomes@,
            )[i].original_index <= #[trigger] oviews(self.outcomes@)[j].original_index by {
                assert(rviews(self.hosts@)[i].original_index <= rviews(
                    self.hosts@,
                )[j].original_index);
                assert(outcome_for(oviews(self.outcomes@)[i], rviews(self.hosts@)[i]));
                assert(outcome_for(oviews(self.outcomes@)[j], rviews(self.hosts@)[j]));
            }
        }
        self.outcomes
    }
}

/// Tests whether `results` holds exactly one outcome per host of `batch`,
/// so an unverified caller can establish `results_match` before handing a
/// batch's outcomes over.
pub fn check_results(results: &Vec<ExecutionOutcome>, batch: &Vec<ResolvedHost>) -> (ok: bool)
    ensures
        ok == results_match(oviews(results@), rviews(batch@)),
{
    if results.len() != batch.len() {
        return false;
    }
    let mut i1: usize = 0;
    while i1 < results.len()
        invariant
            i1 <= results@.len(),
            forall|p: int, q: int|
                0 <= p < q < results@.len() && q < i1 ==> (#[trigger] oviews(
                    results@,
                )[p]).original_index != (#[trigger] oviews(results@)[q]).original_index,
        decreases results@.len() - i1,
    {
        let mut p: usize = 0;
        while p < i1
            invariant
                p <= i1 < results@.len(),
                forall|q: int|
                    0 <= q < p ==> (#[trigger] oviews(results@)[q]).original_index != oviews(
                        results@,
                    )[i1 as int].original_index,
            decreases i1 - p,
        {
            proof {
                assert(oviews(results@)[p as int] == results@[p as int]@);
                assert(oviews(results@)[i1 as int] == results@[i1 as int]@);
            }
            if results[p].original_index == results[i1].original_index {
                proof {
                    assert((oviews(results@)[p as int]).original_index == (oviews(
                        results@,
                    )[i1 as int]).original_index);
                }
                return false;
            }
            p = p + 1;
        }
        i1 = i1 + 1;
    }
    let mut j: usize = 0;
    while j < batch.len()
        invariant
            j <= batch@.len(),
            results@.len() == batch@.len(),
            forall|jj: int| 0 <= jj < j ==> has_result_for(oviews(results@), rviews(batch@)[jj]),
        decreases batch@.len() - j,
    {
        let ghost host = rviews(batch@)[j as int];
        proof {
            assert(host == batch@[j as int]@);
        }
        let mut i: usize = 0;
        let mut found: bool = false;
        while i < results.len()
            invariant_except_break
                !found,
            invariant
                i <= results@.len(),
                j < batch@.len(),
                results@.len() == batch@.len(),
                host == rviews(batch@)[j as int],
                forall|p: int| 0 <= p < i ==> !outcome_for(#[trigger] oviews(results@)[p], host),
            ensures
                found ==> i < results@.len() && outcome_for(oviews(results@)[i as int], host),
                !found ==> forall|p: int|
                    0 <= p < results@.len() ==> !outcome_for(#[trigger] oviews(results@)[p], host),
            decreases results@.len() - i,
        {
            proof {
                assert(oviews(results@)[i as int] == results@[i as int]@);
            }
            if results[i].original_index == batch[j].original_index {
                if bytes_eq(&results[i].name, &batch[j].name) {
                    found = true;
                    break;
                }
            }
            i = i + 1;
        }
        if !found {
            proof {
                if has_result_for(oviews(results@), host) {
                    let w = choose|w: int|
                        0 <= w < oviews(results@).len() && outcome_for(
                            #[trigger] oviews(results@)[w],
                            host,
                        );
                    assert(!outcome_for(oviews(results@)[w], host));
                }
            }
            return false;
        }
        proof {
            assert(has_result_for(oviews(results@), host)) by {
                assert(outcome_for(oviews(results@)[i as int], host));
            }
        }
        j = j + 1;
    }
    proof {
        assert(forall|jj: int|
            0 <= jj < batch@.len() ==> has_result_for(oviews(results@), #[trigger] rviews(
                batch@,
            )[jj]));
    }
    true
}

/// Indices that rise strictly from each entry to the next rise across the
/// whole list.
proof fn lemma_adjacent_increasing(s: Seq<ResolvedHostV>, i: int, j: int)
    requires
        forall|k: int|
            #![trigger s[k], s[k + 1]]
            0 <= k < s.len() - 1 ==> s[k].original_index < s[k + 1].original_index,
        0 <= i < j < s.len(),
    ensures
        s[i].original_index < s[j].original_index,
    decreases j - i,
{
    assert(s[i].original_index < s[i + 1].original_index);
    if i + 1 < j {
        lemma_adjacent_increasing(s, i + 1, j);
    }
}

/// Tests whether a host list is ready for a run — original indices strictly
/// increasing (so ordered, no index twice) and every entry carrying an
/// address — so an unverified caller can establish [`Coordinator::new`]'s
/// precondition on the hosts before starting a run.
pub fn check_hosts_ready(hosts: &Vec<ResolvedHost>) -> (ok: bool)
    ensures
        ok == (sorted_by_index(rviews(hosts@)) && distinct_indices(rviews(hosts@)) && (forall|
            i: int,
        |
            0 <= i < hosts@.len() ==> (#[trigger] rviews(hosts@)[i]).address is Some)),
{
    let n = hosts.len();
    let mut i: usize = 0;
    while i < n
        invariant
            i <= n,
            n == hosts@.len(),
            forall|k: int| 0 <= k < i ==> (#[trigger] rviews(hosts@)[k]).address is Some,
        decreases n - i,
    {
        proof {
            assert(rviews(hosts@)[i as int] == hosts@[i as int]@);
        }
        let has_address = match &hosts[i].address {
            Some(_) => true,
            None => false,
        };
        if !has_address {
            return false;
        }
        i = i + 1;
    }
    let mut j: usize = 1;
    while j < n
        invariant
            1 <= j,
            n == hosts@.len(),
            forall|k: int|
                #![trigger rviews(hosts@)[k], rviews(hosts@)[k + 1]]
                0 <= k < j - 1 ==> rviews(hosts@)[k].original_index < rviews(
                    hosts@,
                )[k + 1].original_index,
        decreases n - j,
    {
        proof {
            assert(rviews(hosts@)[j - 1 as int] == hosts@[j - 1 as int]@);
            assert(rviews(hosts@)[j as int] == hosts@[j as int]@);
        }
        if hosts[j - 1].original_index >= hosts[j].original_index {
            proof {
                if rviews(hosts@)[j - 1 as int].original_index == rviews(
                    hosts@,
                )[j as int].original_index {
                    assert(!distinct_indices(rviews(hosts@)));
                } else {
                    assert(!sorted_by_index(rviews(hosts@)));
                }
            }
            return false;
        }
        j = j + 1;
    }
    proof {
        let hv = rviews(hosts@);
        assert(forall|k: int|
            #![trigger hv[k], hv[k + 1]]
            0 <= k < hv.len() - 1 ==> hv[k].original_index < hv[k + 1].original_index);
        assert forall|p: int, q: int|
            0 <= p < q < hv.len() implies (#[trigger] hv[p]).original_index < (
            #[trigger] hv[q]).original_index by {
            lemma_adjacent_increasing(hv, p, q);
        }
        assert(sorted_by_index(hv));
        assert(distinct_indices(hv));
    }
    true
}

/// A connection failure is isolated: however many of a batch's outcomes
/// carry a connection error, outcomes that match the batch still represent
/// every host of the batch — a failure on one host takes nothing from the
/// others, in this batch or any later one.
pub proof fn lemma_connection_failure_isolated(
    rs: Seq<ExecutionOutcomeV>,
    batch: Seq<ResolvedHostV>,
    f: int,
    j: int,
)
    requires
        results_match(rs, batch),
        0 <= f < rs.len(),
        rs[f].connection_error is Some,
        0 <= j < batch.len(),
    ensures
        has_result_for(rs, batch[j]),
{
}

/// Never more executions in flight than the concurrency limit: a
/// well-formed run's open batch — the only work handed out and not yet
/// accounted for — is at most `limit` hosts wide, whatever the input size.
pub proof fn lemma_in_flight_bounded(c: Coordinator)
    requires
        c.wf(),
    ensures
        c.dispatched - c.batch_start <= c.limit,
{
}

} // verus!
