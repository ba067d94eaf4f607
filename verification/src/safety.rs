//! The safety search: in which order can the processes run to completion?

use vstd::prelude::*;
use vstd::string::StringExecFns;
use crate::process::{models, records, Process, RanProcess, RanProcessView};
use crate::schedule::{
    followed_by, held, ids, is_safe_trace, lemma_availability_never_shrinks,
    lemma_first_runnable, lemma_first_runnable_unique, lemma_found_iff_safe, lemma_held_concat,
    lemma_held_push, lemma_needs_covered, lemma_pass_over, lemma_same_processes, never_shrinks,
    ran, rotated_after, runnable, safe_sequence, safe_state, well_posed,
};
use crate::vector::{is_less_than_or_equal, quantities, sum_of};

verus! {

/// Why the search gave no order.
#[derive(Debug, Clone, Copy, PartialEq, Eq, Structural)]
pub enum SafetyError {
    /// No waiting process can run, now or later.
    NoSafeState,
}

impl SafetyError {
    /// The text that reports this error.
    pub open spec fn text(self) -> Seq<char> {
        "No safe state exists"@
    }

    /// The text that reports this error.
    pub fn message(&self) -> (s: String)
        ensures
            s@ == self.text(),
    {
        String::from_str("No safe state exists")
    }
}

/// Whether the search can be run on these: every process has as many
/// resource types as the pool, and of each type the pool and the processes
/// together hold no more than a `u32` can count.
pub fn is_well_posed(available: &Vec<u32>, processes: &Vec<Process>) -> (ok: bool)
    ensures
        ok == well_posed(quantities(available@), models(processes@)),
{
    let ghost free = quantities(available@);
    let ghost queue = models(processes@);
    let mut i: usize = 0;
    while i < processes.len()
        invariant
            i <= processes.len(),
            free == quantities(available@),
            queue == models(processes@),
            forall|k: int| 0 <= k < i ==> (#[trigger] queue[k]).dimension() == free.len(),
        decreases processes.len() - i,
    {
        let held_by = processes[i].allocated();
        if held_by.len() != available.len() {
            assert(queue[i as int].dimension() != free.len());
            return false;
        }
        i += 1;
    }
    let mut j: usize = 0;
    while j < available.len()
        invariant
            j <= available.len(),
            free == quantities(available@),
            queue == models(processes@),
            forall|k: int| 0 <= k < queue.len() ==> (#[trigger] queue[k]).dimension() == free.len(),
            forall|c: int| 0 <= c < j ==> free[c] + #[trigger] held(queue, c) <= u32::MAX,
        decreases available.len() - j,
    {
        let mut total: u64 = available[j] as u64;
        let mut i: usize = 0;
        assert(queue.subrange(0, 0) =~= Seq::empty());
        while i < processes.len()
            invariant
                i <= processes.len(),
                j < available.len(),
                free == quantities(available@),
                queue == models(processes@),
                forall|k: int|
                    0 <= k < queue.len() ==> (#[trigger] queue[k]).dimension() == free.len(),
                total == free[j as int] + held(queue.subrange(0, i as int), j as int),
                total <= u32::MAX,
            decreases processes.len() - i,
        {
            let held_by = processes[i].allocated();
            proof {
                let front = queue.subrange(0, i as int);
                let longer = queue.subrange(0, i + 1);
                let back = queue.subrange(i + 1, queue.len() as int);
                assert(queue[i as int].dimension() == free.len());
                assert(quantities(held_by@)[j as int] == held_by[j as int]);
                lemma_held_push(front, queue[i as int], j as int);
                assert(longer =~= front.push(queue[i as int]));
                lemma_held_concat(longer, back, j as int);
                assert(longer + back =~= queue);
            }
            total = total + held_by[j] as u64;
            if total > u32::MAX as u64 {
                return false;
            }
            i += 1;
        }
        assert(queue.subrange(0, i as int) =~= queue);
        j += 1;
    }
    true
}

/// Finds the order in which the processes can run to completion one at a
/// time, each on what is available once those before it have given back what
/// they held. Fails when the search gets stuck with processes left over.
pub fn bankers_algorithm(available: Vec<u32>, processes: Vec<Process>) -> (found: Result<
    Vec<RanProcess>,
    SafetyError,
>)
    requires
        well_posed(quantities(available@), models(processes@)),
    ensures
        match found {
            Ok(order) => safe_sequence(quantities(available@), models(processes@)) == Some(
                records(order@),
            ),
            Err(e) => e == SafetyError::NoSafeState && safe_sequence(
                quantities(available@),
                models(processes@),
            ) is None,
        },
        found is Ok <==> safe_state(quantities(available@), models(processes@)),
        found matches Ok(order) ==> {
            &&& order.len() == processes.len()
            &&& is_safe_trace(quantities(available@), records(order@))
            &&& never_shrinks(quantities(available@), records(order@))
            &&& ran(records(order@)).to_multiset() == models(processes@).to_multiset()
            &&& ids(ran(records(order@))).to_multiset() == ids(models(processes@)).to_multiset()
        },
{
    let mut pool = available;
    let mut pending = processes;
    let mut ran_processes: Vec<RanProcess> = Vec::new();
    let mut checked: usize = 0;
    proof {
        assert(records(ran_processes@) =~= Seq::empty());
        if let Some(all) = safe_sequence(quantities(available@), models(processes@)) {
            assert(Seq::<RanProcessView>::empty() + all =~= all);
        }
    }
    while pending.len() > 0
        invariant
            well_posed(quantities(pool@), models(pending@)),
            checked <= pending.len(),
            forall|i: int|
                pending.len() - checked <= i < pending.len() ==> !runnable(
                    #[trigger] models(pending@)[i],
                    quantities(pool@),
                ),
            safe_sequence(quantities(available@), models(processes@)) == followed_by(
                records(ran_processes@),
                safe_sequence(quantities(pool@), models(pending@)),
            ),
        decreases pending.len(), pending.len() - checked,
    {
        let ghost queue = models(pending@);
        let ghost free = quantities(pool@);
        if checked >= pending.len() {
            proof {
                lemma_first_runnable(free, queue);
                lemma_found_iff_safe(quantities(available@), models(processes@));
            }
            return Err(SafetyError::NoSafeState);
        }
        let first = pending.remove(0);
        assert(models(pending@) =~= queue.drop_first());
        assert(first@ == queue[0]);
        assert(queue[0].dimension() == free.len());
        let need = first.resources_needed();
        if is_less_than_or_equal(&need, &pool) {
            proof {
                assert forall|j: int| 0 <= j < free.len() implies #[trigger] sum_of(
                    free,
                    first@.allocated,
                )[j] <= u32::MAX by {
                    assert(free[j] + held(queue, j) <= u32::MAX);
                }
                lemma_first_runnable_unique(free, queue, 0);
                assert(rotated_after(queue, 0) =~= queue.drop_first());
            }
            let (record, released) = first.to_ran_process(pool);
            let ghost earlier = records(ran_processes@);
            ran_processes.push(record);
            pool = released;
            checked = 0;
            proof {
                let now = quantities(pool@);
                assert(records(ran_processes@) =~= earlier.push(record@));
                assert forall|j: int| 0 <= j < now.len() implies now[j] + #[trigger] held(
                    models(pending@),
                    j,
                ) <= u32::MAX by {
                    assert(free[j] + held(queue, j) <= u32::MAX);
                }
                if let Some(rest) = safe_sequence(now, models(pending@)) {
                    assert(earlier + (seq![record@] + rest) =~= earlier.push(record@) + rest);
                }
            }
        } else {
            let ghost shorter = models(pending@);
            pending.push(first);
            checked += 1;
            proof {
                assert(models(pending@) =~= shorter.push(first@));
                lemma_pass_over(free, queue);
                assert forall|j: int| 0 <= j < free.len() implies free[j] + #[trigger] held(
                    models(pending@),
                    j,
                ) <= u32::MAX by {
                    lemma_held_push(shorter, first@, j);
                    assert(free[j] + held(queue, j) <= u32::MAX);
                }
                assert forall|i: int|
                    pending.len() - checked <= i < pending.len() implies !runnable(
                    #[trigger] models(pending@)[i],
                    free,
                ) by {
                    if i < pending.len() - 1 {
                        assert(models(pending@)[i] == queue[i + 1]);
                    }
                }
            }
        }
    }
    proof {
        assert(models(pending@) =~= Seq::empty());
        assert(records(ran_processes@) + Seq::empty() =~= records(ran_processes@));
        assert(records(ran_processes@).len() == ran_processes.len());
        assert(models(processes@).len() == processes.len());
        let free = quantities(available@);
        let queue = models(processes@);
        lemma_found_iff_safe(free, queue);
        lemma_needs_covered(free, queue);
        lemma_availability_never_shrinks(free, queue);
        lemma_same_processes(free, queue);
    }
    Ok(ran_processes)
}

} // verus!
