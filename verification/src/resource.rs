use vstd::prelude::*;

use crate::efs::{count_free, lemma_count_free_update};

verus! {

/// Whether a thread's outstanding need fits under the free resources.
pub open spec fn row_fits(need: Seq<usize>, work: Seq<int>) -> bool {
    forall|r: int| 0 <= r < need.len() ==> (#[trigger] need[r]) as int <= work[r]
}

/// Free resources after a finished thread returns its allocation.
pub open spec fn row_add(work: Seq<int>, alloc: Seq<usize>) -> Seq<int> {
    Seq::new(
        work.len(),
        |r: int|
            work[r] + if r < alloc.len() {
                alloc[r] as int
            } else {
                0
            },
    )
}

pub open spec fn all_finished(finished: Seq<bool>) -> bool {
    forall|t: int| 0 <= t < finished.len() ==> #[trigger] finished[t]
}

/// Whether, within `fuel` completions, every thread can finish: some
/// unfinished thread's need fits under the free resources, it runs to
/// completion and hands its allocation back, and the rest can finish in turn.
pub open spec fn can_complete(
    fuel: nat,
    work: Seq<int>,
    alloc: Seq<Seq<usize>>,
    need: Seq<Seq<usize>>,
    finished: Seq<bool>,
) -> bool
    decreases fuel,
{
    all_finished(finished) || (fuel > 0 && exists|t: int|
        0 <= t < finished.len() && !finished[t] && 0 <= t < alloc.len() && 0 <= t < need.len()
            && row_fits(#[trigger] need[t], work) && can_complete(
            (fuel - 1) as nat,
            row_add(work, alloc[t]),
            alloc,
            need,
            finished.update(t, true),
        ))
}

/// Units of resource `rid` held, summed over threads `0..t`.
pub open spec fn col_total(alloc: Seq<Seq<usize>>, rid: int, t: int) -> int
    decreases t,
{
    if t <= 0 {
        0
    } else {
        col_total(alloc, rid, t - 1) + if 0 <= rid < alloc[t - 1].len() {
            alloc[t - 1][rid] as int
        } else {
            0
        }
    }
}

/// Units of resource `rid` held by the finished threads among `0..t`.
pub open spec fn col_finished(alloc: Seq<Seq<usize>>, fin: Seq<bool>, rid: int, t: int) -> int
    decreases t,
{
    if t <= 0 {
        0
    } else {
        col_finished(alloc, fin, rid, t - 1) + if fin[t - 1] && 0 <= rid < alloc[t - 1].len() {
            alloc[t - 1][rid] as int
        } else {
            0
        }
    }
}

/// The finished threads hold no more of a resource than all threads do.
proof fn lemma_col_finished_le(alloc: Seq<Seq<usize>>, fin: Seq<bool>, rid: int, t: int)
    ensures
        0 <= col_finished(alloc, fin, rid, t) <= col_total(alloc, rid, t),
    decreases t,
{
    if t > 0 {
        lemma_col_finished_le(alloc, fin, rid, t - 1);
    }
}

/// Finishing one more thread adds exactly its holding to the finished sum.
proof fn lemma_col_finished_update(
    alloc: Seq<Seq<usize>>,
    fin: Seq<bool>,
    rid: int,
    t: int,
    u: int,
)
    requires
        0 <= u < t <= fin.len(),
        !fin[u],
    ensures
        col_finished(alloc, fin.update(u, true), rid, t) == col_finished(alloc, fin, rid, t) + if 0
            <= rid < alloc[u].len() {
            alloc[u][rid] as int
        } else {
            0
        },
    decreases t,
{
    if u == t - 1 {
        assert(col_finished(alloc, fin.update(u, true), rid, t - 1) == col_finished(
            alloc,
            fin,
            rid,
            t - 1,
        )) by {
            lemma_col_finished_frame(alloc, fin, fin.update(u, true), rid, t - 1);
        }
    } else {
        lemma_col_finished_update(alloc, fin, rid, t - 1, u);
    }
}

/// The finished sum over a prefix only reads that prefix of the flags.
proof fn lemma_col_finished_frame(
    alloc: Seq<Seq<usize>>,
    f1: Seq<bool>,
    f2: Seq<bool>,
    rid: int,
    t: int,
)
    requires
        forall|i: int| 0 <= i < t ==> f1[i] == f2[i],
    ensures
        col_finished(alloc, f1, rid, t) == col_finished(alloc, f2, rid, t),
    decreases t,
{
    if t > 0 {
        lemma_col_finished_frame(alloc, f1, f2, rid, t - 1);
    }
}

/// Dimensions line up: one allocation and need row per thread, one slot per
/// resource.
pub open spec fn dims_ok(
    work: Seq<int>,
    alloc: Seq<Seq<usize>>,
    need: Seq<Seq<usize>>,
    finished: Seq<bool>,
) -> bool {
    &&& alloc.len() == finished.len()
    &&& need.len() == finished.len()
    &&& forall|t: int|
        0 <= t < finished.len() ==> (#[trigger] alloc[t]).len() == work.len() && need[t].len()
            == work.len()
}

/// More fuel never hurts: a completion within few steps is one within more.
proof fn lemma_fuel_mono(
    f1: nat,
    f2: nat,
    work: Seq<int>,
    alloc: Seq<Seq<usize>>,
    need: Seq<Seq<usize>>,
    finished: Seq<bool>,
)
    requires
        can_complete(f1, work, alloc, need, finished),
        f1 <= f2,
    ensures
        can_complete(f2, work, alloc, need, finished),
    decreases f1,
{
    if !all_finished(finished) {
        let t = choose|t: int|
            0 <= t < finished.len() && !finished[t] && 0 <= t < alloc.len() && 0 <= t < need.len()
                && row_fits(#[trigger] need[t], work) && can_complete(
                (f1 - 1) as nat,
                row_add(work, alloc[t]),
                alloc,
                need,
                finished.update(t, true),
            );
        lemma_fuel_mono(
            (f1 - 1) as nat,
            (f2 - 1) as nat,
            row_add(work, alloc[t]),
            alloc,
            need,
            finished.update(t, true),
        );
    }
}

/// Fuel equal to the number of unfinished threads always suffices.
proof fn lemma_fuel_trim(
    fuel: nat,
    work: Seq<int>,
    alloc: Seq<Seq<usize>>,
    need: Seq<Seq<usize>>,
    finished: Seq<bool>,
)
    requires
        can_complete(fuel, work, alloc, need, finished),
    ensures
        can_complete(count_free(finished), work, alloc, need, finished),
    decreases fuel,
{
    if !all_finished(finished) {
        let t = choose|t: int|
            0 <= t < finished.len() && !finished[t] && 0 <= t < alloc.len() && 0 <= t < need.len()
                && row_fits(#[trigger] need[t], work) && can_complete(
                (fuel - 1) as nat,
                row_add(work, alloc[t]),
                alloc,
                need,
                finished.update(t, true),
            );
        lemma_fuel_trim(
            (fuel - 1) as nat,
            row_add(work, alloc[t]),
            alloc,
            need,
            finished.update(t, true),
        );
        lemma_count_free_update(finished, t, true);
    }
}

/// Exchange: a thread whose need already fits may run to completion first
/// without spoiling an existing completion of the rest.
proof fn lemma_exchange(
    fuel: nat,
    work: Seq<int>,
    alloc: Seq<Seq<usize>>,
    need: Seq<Seq<usize>>,
    finished: Seq<bool>,
    t: int,
)
    requires
        dims_ok(work, alloc, need, finished),
        can_complete(fuel, work, alloc, need, finished),
        0 <= t < finished.len(),
        !finished[t],
        row_fits(need[t], work),
    ensures
        can_complete(fuel, row_add(work, alloc[t]), alloc, need, finished.update(t, true)),
    decreases fuel,
{
    assert(!all_finished(finished));
    let u = choose|u: int|
        0 <= u < finished.len() && !finished[u] && 0 <= u < alloc.len() && 0 <= u < need.len()
            && row_fits(#[trigger] need[u], work) && can_complete(
            (fuel - 1) as nat,
            row_add(work, alloc[u]),
            alloc,
            need,
            finished.update(u, true),
        );
    if u == t {
        lemma_fuel_mono(
            (fuel - 1) as nat,
            fuel,
            row_add(work, alloc[t]),
            alloc,
            need,
            finished.update(t, true),
        );
    } else {
        assert(row_fits(need[t], row_add(work, alloc[u]))) by {
            assert(alloc[t].len() == work.len() && need[t].len() == work.len());
            assert forall|r: int| 0 <= r < need[t].len() implies (#[trigger] need[t][r]) as int
                <= row_add(work, alloc[u])[r] by {
                assert(need[t][r] as int <= work[r]);
                assert(row_add(work, alloc[u])[r] == work[r] + if r < alloc[u].len() {
                    alloc[u][r] as int
                } else {
                    0
                });
            }
        }
        lemma_exchange(
            (fuel - 1) as nat,
            row_add(work, alloc[u]),
            alloc,
            need,
            finished.update(u, true),
            t,
        );
        assert(row_add(row_add(work, alloc[u]), alloc[t]) =~= row_add(
            row_add(work, alloc[t]),
            alloc[u],
        ));
        assert(finished.update(u, true).update(t, true) =~= finished.update(t, true).update(
            u,
            true,
        ));
        assert(row_fits(need[u], row_add(work, alloc[t]))) by {
            assert(alloc[u].len() == work.len() && need[u].len() == work.len());
            assert forall|r: int| 0 <= r < need[u].len() implies (#[trigger] need[u][r]) as int
                <= row_add(work, alloc[t])[r] by {
                assert(need[u][r] as int <= work[r]);
                assert(row_add(work, alloc[t])[r] == work[r] + if r < alloc[t].len() {
                    alloc[t][r] as int
                } else {
                    0
                });
            }
        }
        assert(can_complete(
            (fuel - 1) as nat,
            row_add(row_add(work, alloc[t]), alloc[u]),
            alloc,
            need,
            finished.update(t, true).update(u, true),
        ));
        assert(can_complete(fuel, row_add(work, alloc[t]), alloc, need, finished.update(t, true)));
    }
}

/// The banker's-algorithm bookkeeping the sync layer shares: free units per
/// resource, and per thread the units it holds and the units it still needs.
pub struct SyncResource {
    pub available: Vec<usize>,
    pub allocation: Vec<Vec<usize>>,
    pub need: Vec<Vec<usize>>,
    pub thread_num: usize,
    pub resource_num: usize,
}

impl SyncResource {
    /// Every table matches the declared thread and resource counts.
    pub open spec fn wf(self) -> bool {
        &&& self.available@.len() == self.resource_num as int
        &&& self.allocation@.len() == self.thread_num as int
        &&& self.need@.len() == self.thread_num as int
        &&& forall|t: int|
            0 <= t < self.thread_num as int ==> (#[trigger] self.allocation@[t])@.len()
                == self.resource_num as int
        &&& forall|t: int|
            0 <= t < self.thread_num as int ==> (#[trigger] self.need@[t])@.len()
                == self.resource_num as int
    }

    /// The tables as the completion spec reads them.
    pub open spec fn alloc_view(self) -> Seq<Seq<usize>> {
        Seq::new(self.allocation@.len(), |t: int| self.allocation@[t]@)
    }

    pub open spec fn need_view(self) -> Seq<Seq<usize>> {
        Seq::new(self.need@.len(), |t: int| self.need@[t]@)
    }

    pub open spec fn avail_view(self) -> Seq<int> {
        Seq::new(self.available@.len(), |r: int| self.available@[r] as int)
    }

    /// An empty tracker: no threads, no resources.
    pub fn new() -> (r: SyncResource)
        ensures
            r.wf(),
            r.thread_num == 0,
            r.resource_num == 0,
            r.available@.len() == 0,
    {
        SyncResource {
            available: Vec::new(),
            allocation: Vec::new(),
            need: Vec::new(),
            thread_num: 0,
            resource_num: 0,
        }
    }

    /// Make sure thread `tid` has rows: absent threads get all-zero rows.
    #[verifier::loop_isolation(false)]
    fn ensure_threads(&mut self, tid: usize)
        requires
            old(self).wf(),
            tid < usize::MAX,
        ensures
            final(self).wf(),
            final(self).resource_num == old(self).resource_num,
            final(self).available == old(self).available,
            final(self).thread_num == if tid < old(self).thread_num {
                old(self).thread_num as int
            } else {
                tid + 1
            },
            (tid as int) < final(self).thread_num as int,
            forall|t: int|
                0 <= t < old(self).thread_num as int ==> #[trigger] final(self).allocation@[t]
                    == old(self).allocation@[t],
            forall|t: int|
                0 <= t < old(self).thread_num as int ==> #[trigger] final(self).need@[t] == old(self).need@[t],
            forall|t: int, r: int|
                old(self).thread_num as int <= t < final(self).thread_num as int && 0 <= r < final(self).resource_num as int ==> #[trigger] final(self).allocation@[t]@[r] == 0,
            forall|t: int, r: int|
                old(self).thread_num as int <= t < final(self).thread_num as int && 0 <= r < final(self).resource_num as int ==> #[trigger] final(self).need@[t]@[r] == 0,
    {
        if tid < self.thread_num {
            return ;
        }
        let target = tid + 1;
        while self.thread_num < target
            invariant
                self.wf(),
                self.resource_num == old(self).resource_num,
                self.available == old(self).available,
                old(self).thread_num <= self.thread_num <= target,
                forall|t: int|
                    0 <= t < old(self).thread_num as int ==> #[trigger] self.allocation@[t] == old(self).allocation@[t],
                forall|t: int|
                    0 <= t < old(self).thread_num as int ==> #[trigger] self.need@[t] == old(self).need@[t],
                forall|t: int, r: int|
                    old(self).thread_num as int <= t < self.thread_num as int && 0 <= r
                        < self.resource_num as int ==> #[trigger] self.allocation@[t]@[r] == 0,
                forall|t: int, r: int|
                    old(self).thread_num as int <= t < self.thread_num as int && 0 <= r
                        < self.resource_num as int ==> #[trigger] self.need@[t]@[r] == 0,
            decreases target - self.thread_num,
        {
            let m = self.resource_num;
            let mut row: Vec<usize> = Vec::new();
            for r in 0..m
                invariant
                    row@.len() == r,
                    forall|i: int| 0 <= i < r ==> #[trigger] row@[i] == 0,
            {
                row.push(0);
            }
            let mut row2: Vec<usize> = Vec::new();
            for r in 0..m
                invariant
                    row2@.len() == r,
                    forall|i: int| 0 <= i < r ==> #[trigger] row2@[i] == 0,
            {
                row2.push(0);
            }
            self.allocation.push(row);
            self.need.push(row2);
            self.thread_num = self.thread_num + 1;
        }
    }

    /// Register `amount` more units of resource `rid`; a new resource widens
    /// every table, the new columns zero.
    #[verifier::loop_isolation(false)]
    pub fn add_new_resource(&mut self, rid: usize, amount: usize)
        requires
            old(self).wf(),
            rid < usize::MAX,
            rid < old(self).resource_num ==> old(self).available@[rid as int] + amount
                <= usize::MAX,
        ensures
            final(self).wf(),
            final(self).thread_num == old(self).thread_num,
            final(self).resource_num == if rid < old(self).resource_num {
                old(self).resource_num as int
            } else {
                rid + 1
            },
            final(self).available@[rid as int] == if rid < old(self).resource_num {
                old(self).available@[rid as int] + amount
            } else {
                amount as int
            },
            forall|r: int|
                0 <= r < final(self).resource_num as int && r != rid as int
                    ==> #[trigger] final(self).available@[r] == (if r < old(self).resource_num as int {
                    old(self).available@[r] as int
                } else {
                    0
                }),
            forall|t: int, r: int|
                0 <= t < old(self).thread_num as int && 0 <= r < final(self).resource_num as int
                    ==> #[trigger] final(self).allocation@[t]@[r] == (if r < old(self).resource_num as int {
                    old(self).allocation@[t]@[r] as int
                } else {
                    0
                }),
            forall|t: int, r: int|
                0 <= t < old(self).thread_num as int && 0 <= r < final(self).resource_num as int
                    ==> #[trigger] final(self).need@[t]@[r] == (if r < old(self).resource_num as int {
                    old(self).need@[t]@[r] as int
                } else {
                    0
                }),
    {
        if rid < self.resource_num {
            let cur = self.available[rid];
            self.available[rid] = cur + amount;
            return ;
        }
        let new_num = rid + 1;
        while self.available.len() < new_num
            invariant
                old(self).resource_num <= self.available@.len() <= new_num,
                forall|r: int|
                    0 <= r < old(self).resource_num as int ==> #[trigger] self.available@[r] == old(self).available@[r],
                forall|r: int|
                    old(self).resource_num as int <= r < self.available@.len()
                        ==> #[trigger] self.available@[r] == 0,
                self.allocation == old(self).allocation,
                self.need == old(self).need,
                self.thread_num == old(self).thread_num,
            decreases new_num - self.available@.len(),
        {
            self.available.push(0);
        }
        self.available[rid] = amount;
        self.resource_num = new_num;
        let n = self.thread_num;
        for t in 0..n
            invariant
                n == self.thread_num == old(self).thread_num,
                self.resource_num == new_num,
                old(self).resource_num < new_num,
                self.allocation@.len() == n as int,
                self.need@.len() == n as int,
                self.available@.len() == new_num,
                self.available@[rid as int] == amount as int,
                forall|r: int|
                    0 <= r < old(self).resource_num as int ==> #[trigger] self.available@[r] == old(self).available@[r],
                forall|r: int|
                    old(self).resource_num as int <= r < new_num && r != rid as int
                        ==> #[trigger] self.available@[r] == 0,
                forall|u: int|
                    t as int <= u < n as int ==> #[trigger] self.allocation@[u] == old(self).allocation@[u],
                forall|u: int|
                    t as int <= u < n as int ==> #[trigger] self.need@[u] == old(self).need@[u],
                forall|u: int|
                    0 <= u < t as int ==> (#[trigger] self.allocation@[u])@.len()
                        == new_num as int,
                forall|u: int|
                    0 <= u < t as int ==> (#[trigger] self.need@[u])@.len() == new_num as int,
                forall|u: int, r: int|
                    0 <= u < t as int && 0 <= r < old(self).resource_num as int ==> #[trigger] self.allocation@[u]@[r] == old(self).allocation@[u]@[r],
                forall|u: int, r: int|
                    0 <= u < t as int && 0 <= r < old(self).resource_num as int ==> #[trigger] self.need@[u]@[r] == old(self).need@[u]@[r],
                forall|u: int, r: int|
                    0 <= u < t as int && old(self).resource_num as int <= r < new_num as int ==> #[trigger] self.allocation@[u]@[r] == 0,
                forall|u: int, r: int|
                    0 <= u < t as int && old(self).resource_num as int <= r < new_num as int ==> #[trigger] self.need@[u]@[r] == 0,
        {
            let mut row: Vec<usize> = Vec::new();
            core::mem::swap(&mut row, &mut self.allocation[t]);
            while row.len() < new_num
                invariant
                    old(self).allocation@[t as int]@.len() <= row@.len() <= new_num,
                    forall|r: int|
                        0 <= r < old(self).allocation@[t as int]@.len() ==> #[trigger] row@[r]
                            == old(self).allocation@[t as int]@[r],
                    forall|r: int|
                        old(self).allocation@[t as int]@.len() <= r < row@.len()
                            ==> #[trigger] row@[r] == 0,
                decreases new_num - row@.len(),
            {
                row.push(0);
            }
            core::mem::swap(&mut row, &mut self.allocation[t]);
            let mut row2: Vec<usize> = Vec::new();
            core::mem::swap(&mut row2, &mut self.need[t]);
            while row2.len() < new_num
                invariant
                    old(self).need@[t as int]@.len() <= row2@.len() <= new_num,
                    forall|r: int|
                        0 <= r < old(self).need@[t as int]@.len() ==> #[trigger] row2@[r] == old(self).need@[t as int]@[r],
                    forall|r: int|
                        old(self).need@[t as int]@.len() <= r < row2@.len() ==> #[trigger] row2@[r]
                            == 0,
                decreases new_num - row2@.len(),
            {
                row2.push(0);
            }
            core::mem::swap(&mut row2, &mut self.need[t]);
        }
    }

    /// Mark resource `rid` as gone: no unit of it is available any more.
    pub fn remove_resource(&mut self, rid: usize)
        requires
            old(self).wf(),
            rid < old(self).resource_num,
        ensures
            final(self).wf(),
            final(self).available@ == old(self).available@.update(rid as int, 0usize),
            final(self).allocation == old(self).allocation,
            final(self).need == old(self).need,
            final(self).thread_num == old(self).thread_num,
            final(self).resource_num == old(self).resource_num,
    {
        self.available[rid] = 0;
    }

    /// Record that thread `tid` needs `amount` more units of resource `rid`.
    pub fn add_need(&mut self, tid: usize, rid: usize, amount: usize)
        requires
            old(self).wf(),
            tid < usize::MAX,
            rid < old(self).resource_num,
            (if tid < old(self).thread_num {
                old(self).need@[tid as int]@[rid as int] as int
            } else {
                0
            }) + amount <= usize::MAX,
        ensures
            final(self).wf(),
            final(self).need@[tid as int]@[rid as int] == (if tid < old(self).thread_num {
                old(self).need@[tid as int]@[rid as int] as int
            } else {
                0
            }) + amount,
            final(self).available == old(self).available,
            final(self).resource_num == old(self).resource_num,
    {
        self.ensure_threads(tid);
        let mut row: Vec<usize> = Vec::new();
        core::mem::swap(&mut row, &mut self.need[tid]);
        let cur = row[rid];
        row[rid] = cur + amount;
        core::mem::swap(&mut row, &mut self.need[tid]);
    }

    /// Record that thread `tid` needs `amount` fewer units of resource `rid`.
    pub fn remove_need(&mut self, tid: usize, rid: usize, amount: usize)
        requires
            old(self).wf(),
            tid < usize::MAX,
            rid < old(self).resource_num,
            amount <= (if tid < old(self).thread_num {
                old(self).need@[tid as int]@[rid as int] as int
            } else {
                0
            }),
        ensures
            final(self).wf(),
            final(self).need@[tid as int]@[rid as int] == (if tid < old(self).thread_num {
                old(self).need@[tid as int]@[rid as int] as int
            } else {
                0
            }) - amount,
            final(self).available == old(self).available,
            final(self).resource_num == old(self).resource_num,
    {
        self.ensure_threads(tid);
        let mut row: Vec<usize> = Vec::new();
        core::mem::swap(&mut row, &mut self.need[tid]);
        let cur = row[rid];
        row[rid] = cur - amount;
        core::mem::swap(&mut row, &mut self.need[tid]);
    }

    /// Hand thread `tid` `amount` units of resource `rid`.
    pub fn allocate(&mut self, tid: usize, rid: usize, amount: usize)
        requires
            old(self).wf(),
            tid < usize::MAX,
            rid < old(self).resource_num,
            amount <= old(self).available@[rid as int],
            (if tid < old(self).thread_num {
                old(self).allocation@[tid as int]@[rid as int] as int
            } else {
                0
            }) + amount <= usize::MAX,
        ensures
            final(self).wf(),
            final(self).allocation@[tid as int]@[rid as int] == (if tid < old(self).thread_num {
                old(self).allocation@[tid as int]@[rid as int] as int
            } else {
                0
            }) + amount,
            final(self).available@[rid as int] == old(self).available@[rid as int] - amount,
            forall|r: int|
                0 <= r < old(self).resource_num as int && r != rid as int
                    ==> #[trigger] final(self).available@[r] == old(self).available@[r],
            final(self).resource_num == old(self).resource_num,
    {
        self.ensure_threads(tid);
        let mut row: Vec<usize> = Vec::new();
        core::mem::swap(&mut row, &mut self.allocation[tid]);
        let cur = row[rid];
        row[rid] = cur + amount;
        core::mem::swap(&mut row, &mut self.allocation[tid]);
        let avail = self.available[rid];
        self.available[rid] = avail - amount;
    }

    /// Take `amount` units of resource `rid` back from thread `tid`.
    pub fn dealloc(&mut self, tid: usize, rid: usize, amount: usize)
        requires
            old(self).wf(),
            tid < usize::MAX,
            rid < old(self).resource_num,
            amount <= (if tid < old(self).thread_num {
                old(self).allocation@[tid as int]@[rid as int] as int
            } else {
                0
            }),
            old(self).available@[rid as int] + amount <= usize::MAX,
        ensures
            final(self).wf(),
            final(self).allocation@[tid as int]@[rid as int] == (if tid < old(self).thread_num {
                old(self).allocation@[tid as int]@[rid as int] as int
            } else {
                0
            }) - amount,
            final(self).available@[rid as int] == old(self).available@[rid as int] + amount,
            forall|r: int|
                0 <= r < old(self).resource_num as int && r != rid as int
                    ==> #[trigger] final(self).available@[r] == old(self).available@[r],
            final(self).resource_num == old(self).resource_num,
    {
        self.ensure_threads(tid);
        let mut row: Vec<usize> = Vec::new();
        core::mem::swap(&mut row, &mut self.allocation[tid]);
        let cur = row[rid];
        row[rid] = cur - amount;
        core::mem::swap(&mut row, &mut self.allocation[tid]);
        let avail = self.available[rid];
        self.available[rid] = avail + amount;
    }

    /// Whether thread `tid`'s whole outstanding need fits under `work`.
    #[verifier::loop_isolation(false)]
    fn need_fits(&self, tid: usize, work: &Vec<usize>) -> (r: bool)
        requires
            self.wf(),
            tid < self.thread_num,
            work@.len() == self.resource_num as int,
        ensures
            r == row_fits(self.need@[tid as int]@, Seq::new(work@.len(), |i: int| work@[i] as int)),
    {
        let row = &self.need[tid];
        let m = self.resource_num;
        let ghost wv = Seq::new(work@.len(), |i: int| work@[i] as int);
        for r in 0..m
            invariant
                self.wf(),
                tid < self.thread_num,
                row == &self.need@[tid as int],
                m == self.resource_num,
                work@.len() == m as int,
                wv == Seq::new(work@.len(), |i: int| work@[i] as int),
                forall|i: int| 0 <= i < r ==> (#[trigger] row@[i]) as int <= wv[i],
        {
            if row[r] > work[r] {
                return false;
            }
        }
        true
    }

    /// Run the deadlock check over the current tables: follow every thread
    /// whose need fits under the free resources, let it finish and return its
    /// allocation, and report deadlock when some thread can never proceed.
    /// A negative verdict is sound: it carries an order in which every thread
    /// can run to completion from the current state.
    #[verifier::loop_isolation(false)]
    pub fn detect_deadlock(&self) -> (r: bool)
        requires
            self.wf(),
            forall|rid: int|
                0 <= rid < self.resource_num as int ==> (#[trigger] self.available@[rid]) as int
                    + col_total(self.alloc_view(), rid, self.thread_num as int) <= usize::MAX,
        ensures
            r <==> !can_complete(
                self.thread_num as nat,
                self.avail_view(),
                self.alloc_view(),
                self.need_view(),
                Seq::new(self.thread_num as nat, |t: int| false),
            ),
    {
        let n = self.thread_num;
        let m = self.resource_num;
        let ghost av = self.alloc_view();
        let ghost nv = self.need_view();
        let ghost f0 = Seq::new(n as nat, |t: int| false);
        let mut work: Vec<usize> = Vec::new();
        for r in 0..m
            invariant
                self.wf(),
                m == self.resource_num,
                work@.len() == r,
                forall|i: int| 0 <= i < r ==> #[trigger] work@[i] == self.available@[i],
        {
            work.push(self.available[r]);
        }
        let mut finish: Vec<bool> = Vec::new();
        for t in 0..n
            invariant
                finish@.len() == t,
                forall|i: int| 0 <= i < t ==> !(#[trigger] finish@[i]),
        {
            finish.push(false);
        }
        proof {
            assert(finish@ =~= f0);
            assert forall|rid: int| 0 <= rid < m as int implies #[trigger] work@[rid] as int
                == self.available@[rid] as int + col_finished(av, finish@, rid, n as int) by {
                lemma_col_finished_none(av, finish@, rid, n as int);
            }
            crate::efs::lemma_count_free_empty(finish@);
            assert(count_free(finish@) == n as nat);
            assert(Seq::new(work@.len(), |i: int| work@[i] as int) =~= self.avail_view());
        }
        loop
            invariant
                self.wf(),
                n == self.thread_num,
                m == self.resource_num,
                av == self.alloc_view(),
                nv == self.need_view(),
                f0 == Seq::new(n as nat, |t: int| false),
                work@.len() == m as int,
                finish@.len() == n as int,
                forall|rid: int|
                    0 <= rid < m as int ==> #[trigger] work@[rid] as int == self.available@[rid]
                        + col_finished(av, finish@, rid, n as int),
                can_complete(
                    count_free(finish@),
                    Seq::new(work@.len(), |i: int| work@[i] as int),
                    av,
                    nv,
                    finish@,
                ) ==> can_complete(n as nat, self.avail_view(), av, nv, f0),
                can_complete(n as nat, self.avail_view(), av, nv, f0) ==> can_complete(
                    count_free(finish@),
                    Seq::new(work@.len(), |i: int| work@[i] as int),
                    av,
                    nv,
                    finish@,
                ),
            decreases count_free(finish@) + 1,
        {
            let ghost fin_before_pass = finish@;
            let ghost w_before_pass = work@;
            let mut changed = false;
            let mut can_finish = true;
            for tid in 0..n
                invariant
                    self.wf(),
                    n == self.thread_num,
                    m == self.resource_num,
                    av == self.alloc_view(),
                    nv == self.need_view(),
                    f0 == Seq::new(n as nat, |t: int| false),
                    work@.len() == m as int,
                    finish@.len() == n as int,
                    forall|rid: int|
                        0 <= rid < m as int ==> #[trigger] work@[rid] as int
                            == self.available@[rid] + col_finished(av, finish@, rid, n as int),
                    can_complete(
                        count_free(finish@),
                        Seq::new(work@.len(), |i: int| work@[i] as int),
                        av,
                        nv,
                        finish@,
                    ) ==> can_complete(n as nat, self.avail_view(), av, nv, f0),
                    can_complete(n as nat, self.avail_view(), av, nv, f0) ==> can_complete(
                        count_free(finish@),
                        Seq::new(work@.len(), |i: int| work@[i] as int),
                        av,
                        nv,
                        finish@,
                    ),
                    can_finish ==> forall|t: int| 0 <= t < tid ==> #[trigger] finish@[t],
                    !changed ==> finish@ == fin_before_pass && work@ == w_before_pass,
                    !changed ==> forall|t: int|
                        0 <= t < tid ==> #[trigger] finish@[t] || !row_fits(
                            nv[t],
                            Seq::new(work@.len(), |i: int| work@[i] as int),
                        ),
                    !can_finish ==> exists|t: int| 0 <= t < tid && !(#[trigger] finish@[t]),
                    !changed ==> count_free(finish@) == count_free(fin_before_pass),
                    changed ==> count_free(finish@) < count_free(fin_before_pass),
                    count_free(finish@) <= count_free(fin_before_pass),
            {
                let already = finish[tid];
                if already {
                } else if !self.need_fits(tid, &work) {
                    can_finish = false;
                    proof {
                        assert(!finish@[tid as int]);
                    }
                } else {
                    let ghost w_before = work@;
                    let ghost fin_before = finish@;
                    for rid in 0..m
                        invariant
                            self.wf(),
                            n == self.thread_num,
                            m == self.resource_num,
                            av == self.alloc_view(),
                            tid < n,
                            work@.len() == m as int,
                            finish@ == fin_before,
                            finish@.len() == n as int,
                            !finish@[tid as int],
                            forall|r2: int|
                                rid as int <= r2 < m as int ==> #[trigger] work@[r2]
                                    == w_before[r2],
                            forall|r2: int|
                                0 <= r2 < rid as int ==> #[trigger] work@[r2] as int
                                    == w_before[r2] + av[tid as int][r2],
                            forall|r2: int|
                                0 <= r2 < m as int ==> w_before[r2] as int == self.available@[r2]
                                    + col_finished(av, finish@, r2, n as int),
                    {
                        proof {
                            lemma_col_finished_le(av, finish@, rid as int, n as int);
                            lemma_col_finished_bound(av, finish@, rid as int, n as int, tid as int);
                        }
                        let cur = work[rid];
                        let add = self.allocation[tid][rid];
                        work[rid] = cur + add;
                    }
                    let ghost w_after = work@;
                    finish[tid] = true;
                    changed = true;
                    proof {
                        lemma_count_free_update(fin_before, tid as int, true);
                        assert forall|r2: int| 0 <= r2 < m as int implies #[trigger] work@[r2] as int
                            == self.available@[r2] + col_finished(av, finish@, r2, n as int) by {
                            lemma_col_finished_update(av, fin_before, r2, n as int, tid as int);
                        }
                        // the new chain link: finishing `tid` here is one step
                        // of a completion order
                        let wv_before = Seq::new(w_before.len(), |i: int| w_before[i] as int);
                        let wv_after = Seq::new(w_after.len(), |i: int| w_after[i] as int);
                        assert(wv_after =~= row_add(wv_before, av[tid as int]));
                        assert(nv[tid as int] == self.need@[tid as int]@);
                        assert(av[tid as int] == self.allocation@[tid as int]@);
                        assert(row_fits(nv[tid as int], wv_before));
                        assert(finish@ == fin_before.update(tid as int, true));
                        assert(count_free(fin_before) > 0);
                        if can_complete(count_free(finish@), wv_after, av, nv, finish@) {
                            assert(can_complete(
                                (count_free(fin_before) - 1) as nat,
                                row_add(wv_before, av[tid as int]),
                                av,
                                nv,
                                fin_before.update(tid as int, true),
                            ));
                            assert(can_complete(
                                count_free(fin_before),
                                wv_before,
                                av,
                                nv,
                                fin_before,
                            ));
                        }
                        if !can_finish {
                            let t0 = choose|t: int|
                                0 <= t < tid as int && !(#[trigger] fin_before[t]);
                            assert(!finish@[t0]);
                        }
                        if can_complete(n as nat, self.avail_view(), av, nv, f0) {
                            assert(can_complete(
                                count_free(fin_before),
                                wv_before,
                                av,
                                nv,
                                fin_before,
                            ));
                            assert(dims_ok(wv_before, av, nv, fin_before)) by {
                                assert forall|t: int|
                                    0 <= t < n as int implies (#[trigger] av[t]).len()
                                        == wv_before.len() && nv[t].len() == wv_before.len() by {
                                    assert(av[t] == self.allocation@[t]@);
                                    assert(nv[t] == self.need@[t]@);
                                }
                            }
                            lemma_exchange(
                                count_free(fin_before),
                                wv_before,
                                av,
                                nv,
                                fin_before,
                                tid as int,
                            );
                            lemma_fuel_trim(count_free(fin_before), wv_after, av, nv, finish@);
                        }
                    }
                }
            }
            if can_finish {
                proof {
                    assert(all_finished(finish@));
                }
                return false;
            }
            if !changed {
                proof {
                    let wv = Seq::new(work@.len(), |i: int| work@[i] as int);
                    assert(!all_finished(finish@)) by {
                        let t0 = choose|t: int| 0 <= t < n as int && !(#[trigger] finish@[t]);
                        assert(!finish@[t0]);
                    }
                    assert(!can_complete(count_free(finish@), wv, av, nv, finish@)) by {
                        if can_complete(count_free(finish@), wv, av, nv, finish@) {
                            let t = choose|t: int|
                                0 <= t < finish@.len() && !finish@[t] && 0 <= t < av.len() && 0 <= t
                                    < nv.len() && row_fits(#[trigger] nv[t], wv) && can_complete(
                                    (count_free(finish@) - 1) as nat,
                                    row_add(wv, av[t]),
                                    av,
                                    nv,
                                    finish@.update(t, true),
                                );
                            assert(finish@[t] || !row_fits(nv[t], wv));
                        }
                    }
                }
                return true;
            }
        }
    }
}

/// With no thread finished, the finished threads hold nothing.
proof fn lemma_col_finished_none(alloc: Seq<Seq<usize>>, fin: Seq<bool>, rid: int, t: int)
    requires
        forall|i: int| 0 <= i < t ==> !(#[trigger] fin[i]),
    ensures
        col_finished(alloc, fin, rid, t) == 0,
    decreases t,
{
    if t > 0 {
        lemma_col_finished_none(alloc, fin, rid, t - 1);
    }
}

/// One unfinished thread's holding fits between the finished sum and the
/// total.
proof fn lemma_col_finished_bound(
    alloc: Seq<Seq<usize>>,
    fin: Seq<bool>,
    rid: int,
    t: int,
    u: int,
)
    requires
        0 <= u < t,
        !fin[u],
    ensures
        col_finished(alloc, fin, rid, t) + (if 0 <= rid < alloc[u].len() {
            alloc[u][rid] as int
        } else {
            0
        }) <= col_total(alloc, rid, t),
    decreases t,
{
    if u == t - 1 {
        lemma_col_finished_le(alloc, fin, rid, t - 1);
    } else {
        lemma_col_finished_bound(alloc, fin, rid, t - 1, u);
    }
}

} // verus!
