//! The safety search as mathematics: what it finds, and what holds of it.
//!
//! The search walks a queue of waiting processes. The first one whose need is
//! covered by what is available runs, gives back what it held, and leaves the
//! queue; those that were passed over on the way go to the back.

use vstd::prelude::*;
use vstd::seq_lib::{
    lemma_multiset_commutative, lemma_seq_union_to_multiset_commutative, to_multiset_contains,
    to_multiset_len, to_multiset_remove,
};
use crate::process::{ProcessView, RanProcessView};
use crate::vector::{all_le, lemma_all_le_transitive, sum_of};

verus! {

/// The process can run now: what is available covers its need.
pub open spec fn runnable(p: ProcessView, available: Seq<nat>) -> bool {
    all_le(p.need(), available)
}

/// The position of the first process in the queue that can run, or the
/// length of the queue if none can.
pub open spec fn first_runnable(available: Seq<nat>, queue: Seq<ProcessView>) -> nat
    decreases queue.len(),
{
    if queue.len() == 0 || runnable(queue[0], available) {
        0
    } else {
        1 + first_runnable(available, queue.drop_first())
    }
}

/// The queue once the process at `k` has left it: those behind it move up,
/// those that were passed over follow them.
pub open spec fn rotated_after(queue: Seq<ProcessView>, k: int) -> Seq<ProcessView> {
    queue.subrange(k + 1, queue.len() as int) + queue.subrange(0, k)
}

/// The order in which the search lets the processes run, with what is
/// available after each of them, or `None` where it gets stuck.
pub open spec fn safe_sequence(available: Seq<nat>, queue: Seq<ProcessView>) -> Option<
    Seq<RanProcessView>,
>
    decreases queue.len(),
{
    if queue.len() == 0 {
        Some(Seq::empty())
    } else {
        let k = first_runnable(available, queue) as int;
        if k >= queue.len() {
            None
        } else {
            let released = sum_of(available, queue[k].allocated);
            let record = RanProcessView { process: queue[k], available: released };
            match safe_sequence(released, rotated_after(queue, k)) {
                Some(rest) => Some(seq![record] + rest),
                None => None,
            }
        }
    }
}

/// `done`, followed by what is still to come, if anything is.
pub open spec fn followed_by(
    done: Seq<RanProcessView>,
    rest: Option<Seq<RanProcessView>>,
) -> Option<Seq<RanProcessView>> {
    match rest {
        Some(rest) => Some(done + rest),
        None => None,
    }
}

/// What the processes of the queue hold together of resource type `j`.
pub open spec fn held(queue: Seq<ProcessView>, j: int) -> nat
    decreases queue.len(),
{
    if queue.len() == 0 {
        0
    } else {
        queue[0].allocated[j] + held(queue.drop_first(), j)
    }
}

/// The search can be run on these: every process has as many resource types
/// as the pool, and of each type the pool and the processes together hold no
/// more than a `u32` can count.
pub open spec fn well_posed(available: Seq<nat>, processes: Seq<ProcessView>) -> bool {
    &&& forall|i: int|
        0 <= i < processes.len() ==> (#[trigger] processes[i]).dimension() == available.len()
    &&& forall|j: int|
        0 <= j < available.len() ==> available[j] + #[trigger] held(processes, j) <= u32::MAX
}

/// What was available when the process of record `k` was let run: what the
/// record before it shows, or for the first record what the search began with.
pub open spec fn available_before(available: Seq<nat>, trace: Seq<RanProcessView>, k: int) -> Seq<
    nat,
> {
    if k == 0 {
        available
    } else {
        trace[k - 1].available
    }
}

/// Every process of the trace ran on what covered its need, and each record
/// shows what was available before, increased by what the process held.
pub open spec fn is_safe_trace(available: Seq<nat>, trace: Seq<RanProcessView>) -> bool {
    forall|k: int|
        0 <= k < trace.len() ==> {
            &&& runnable((#[trigger] trace[k]).process, available_before(available, trace, k))
            &&& trace[k].available == sum_of(
                available_before(available, trace, k),
                trace[k].process.allocated,
            )
        }
}

/// From one record to any later one, nothing that is available gets less;
/// nor from the start to the first record.
pub open spec fn never_shrinks(available: Seq<nat>, trace: Seq<RanProcessView>) -> bool {
    &&& forall|k: int| 0 <= k < trace.len() ==> all_le(available, (#[trigger] trace[k]).available)
    &&& forall|i: int, j: int|
        0 <= i <= j < trace.len() ==> all_le(
            (#[trigger] trace[i]).available,
            (#[trigger] trace[j]).available,
        )
}

/// The processes of a trace, in the order in which they ran.
pub open spec fn ran(trace: Seq<RanProcessView>) -> Seq<ProcessView> {
    Seq::new(trace.len(), |k: int| trace[k].process)
}

/// The identifiers of the processes, in their order.
pub open spec fn ids(processes: Seq<ProcessView>) -> Seq<nat> {
    Seq::new(processes.len(), |i: int| processes[i].id)
}

/// The processes can run to completion in this order, one at a time, each on
/// what is available once those before it have given back what they held.
pub open spec fn is_safe_order(available: Seq<nat>, order: Seq<ProcessView>) -> bool
    decreases order.len(),
{
    order.len() == 0 || {
        &&& runnable(order[0], available)
        &&& is_safe_order(sum_of(available, order[0].allocated), order.drop_first())
    }
}

/// The state is safe: the processes can be put in some order in which they
/// can all run to completion.
pub open spec fn safe_state(available: Seq<nat>, processes: Seq<ProcessView>) -> bool {
    exists|order: Seq<ProcessView>|
        #[trigger] order.to_multiset() == processes.to_multiset() && is_safe_order(
            available,
            order,
        )
}

/// `first_runnable` is the least position of a process that can run.
pub proof fn lemma_first_runnable(available: Seq<nat>, queue: Seq<ProcessView>)
    ensures
        first_runnable(available, queue) <= queue.len(),
        forall|j: int|
            0 <= j < first_runnable(available, queue) ==> !runnable(#[trigger] queue[j], available),
        first_runnable(available, queue) < queue.len() ==> runnable(
            queue[first_runnable(available, queue) as int],
            available,
        ),
    decreases queue.len(),
{
    if queue.len() == 0 || runnable(queue[0], available) {
    } else {
        let tail = queue.drop_first();
        lemma_first_runnable(available, tail);
        assert forall|j: int| 0 <= j < first_runnable(available, queue) implies !runnable(
            #[trigger] queue[j],
            available,
        ) by {
            if j > 0 {
                assert(queue[j] == tail[j - 1]);
            }
        }
    }
}

/// A position whose process can run while none before it can is the one
/// that `first_runnable` gives.
pub proof fn lemma_first_runnable_unique(available: Seq<nat>, queue: Seq<ProcessView>, k: int)
    requires
        0 <= k < queue.len(),
        runnable(queue[k], available),
        forall|j: int| 0 <= j < k ==> !runnable(#[trigger] queue[j], available),
    ensures
        first_runnable(available, queue) == k,
{
    lemma_first_runnable(available, queue);
}

/// Moving a process that cannot run from the front of the queue to its back
/// changes nothing in what the search finds.
pub proof fn lemma_pass_over(available: Seq<nat>, queue: Seq<ProcessView>)
    requires
        queue.len() > 0,
        !runnable(queue[0], available),
    ensures
        safe_sequence(available, queue) == safe_sequence(
            available,
            queue.drop_first().push(queue[0]),
        ),
{
    let moved = queue.drop_first().push(queue[0]);
    let k = first_runnable(available, queue) as int;
    lemma_first_runnable(available, queue);
    lemma_first_runnable(available, moved);
    let m = first_runnable(available, moved) as int;
    assert(forall|j: int| 0 <= j < queue.len() - 1 ==> moved[j] == queue[j + 1]);
    assert(moved[queue.len() - 1] == queue[0]);
    if k >= queue.len() {
        if m < moved.len() {
            if m < queue.len() - 1 {
                assert(moved[m] == queue[m + 1]);
            }
        }
    } else {
        assert(k >= 1);
        assert(moved[k - 1] == queue[k]);
        assert forall|j: int| 0 <= j < k - 1 implies !runnable(#[trigger] moved[j], available) by {
            assert(moved[j] == queue[j + 1]);
        }
        lemma_first_runnable_unique(available, moved, k - 1);
        assert(rotated_after(queue, k) =~= rotated_after(moved, k - 1));
    }
}

/// A process that joins the queue adds what it holds.
pub proof fn lemma_held_push(queue: Seq<ProcessView>, p: ProcessView, j: int)
    ensures
        held(queue.push(p), j) == held(queue, j) + p.allocated[j],
    decreases queue.len(),
{
    if queue.len() == 0 {
        assert(queue.push(p).drop_first() =~= queue);
    } else {
        lemma_held_push(queue.drop_first(), p, j);
        assert(queue.push(p).drop_first() =~= queue.drop_first().push(p));
    }
}

/// Two queues put together hold what each of them holds.
pub proof fn lemma_held_concat(front: Seq<ProcessView>, back: Seq<ProcessView>, j: int)
    ensures
        held(front + back, j) == held(front, j) + held(back, j),
    decreases front.len(),
{
    if front.len() == 0 {
        assert(front + back =~= back);
    } else {
        lemma_held_concat(front.drop_first(), back, j);
        assert((front + back).drop_first() =~= front.drop_first() + back);
    }
}

/// Whenever the search finds an order, every process in it ran on what
/// covered its need: what was available before it, as the record before it
/// shows (for the first, what the search began with), is at least its need
/// in every resource type; and its own record shows that, increased by what
/// the process held.
pub proof fn lemma_needs_covered(available: Seq<nat>, processes: Seq<ProcessView>)
    requires
        safe_sequence(available, processes) is Some,
    ensures
        is_safe_trace(available, safe_sequence(available, processes)->0),
    decreases processes.len(),
{
    let trace = safe_sequence(available, processes)->0;
    if processes.len() > 0 {
        let k = first_runnable(available, processes) as int;
        lemma_first_runnable(available, processes);
        let released = sum_of(available, processes[k].allocated);
        let rest = safe_sequence(released, rotated_after(processes, k))->0;
        lemma_needs_covered(released, rotated_after(processes, k));
        assert forall|i: int| 0 <= i < trace.len() implies {
            &&& runnable((#[trigger] trace[i]).process, available_before(available, trace, i))
            &&& trace[i].available == sum_of(
                available_before(available, trace, i),
                trace[i].process.allocated,
            )
        } by {
            if i > 0 {
                assert(trace[i] == rest[i - 1]);
                if i > 1 {
                    assert(trace[i - 1] == rest[i - 2]);
                }
                assert(available_before(available, trace, i) == available_before(
                    released,
                    rest,
                    i - 1,
                ));
            }
        }
    }
}

/// In a trace in which each record shows what was available before it,
/// increased by what its process held, a later record shows no less than an
/// earlier one, and none shows less than there was at the start.
pub proof fn lemma_trace_grows(available: Seq<nat>, trace: Seq<RanProcessView>, i: int, j: int)
    requires
        is_safe_trace(available, trace),
        0 <= i <= j < trace.len(),
    ensures
        all_le(available, trace[i].available),
        all_le(trace[i].available, trace[j].available),
    decreases j,
{
    let before = available_before(available, trace, j);
    assert(trace[j].available == sum_of(before, trace[j].process.allocated));
    assert(all_le(before, trace[j].available));
    if j > 0 {
        if i < j {
            lemma_trace_grows(available, trace, i, j - 1);
            lemma_all_le_transitive(trace[i].available, before, trace[j].available);
        } else {
            lemma_trace_grows(available, trace, i - 1, j - 1);
            lemma_all_le_transitive(available, before, trace[j].available);
        }
    }
}

/// In a trace in which each record shows what was available before it,
/// increased by what its process held, nothing that is available gets less.
pub proof fn lemma_trace_never_shrinks(available: Seq<nat>, trace: Seq<RanProcessView>)
    requires
        is_safe_trace(available, trace),
    ensures
        never_shrinks(available, trace),
{
    assert forall|k: int| 0 <= k < trace.len() implies all_le(
        available,
        (#[trigger] trace[k]).available,
    ) by {
        lemma_trace_grows(available, trace, k, k);
    }
    assert forall|i: int, j: int| 0 <= i <= j < trace.len() implies all_le(
        (#[trigger] trace[i]).available,
        (#[trigger] trace[j]).available,
    ) by {
        lemma_trace_grows(available, trace, i, j);
    }
}

/// Whenever the search finds an order, what is available never gets less
/// along it, in any resource type: not from the start to a record, nor from
/// a record to a later one.
pub proof fn lemma_availability_never_shrinks(available: Seq<nat>, processes: Seq<ProcessView>)
    requires
        safe_sequence(available, processes) is Some,
    ensures
        never_shrinks(available, safe_sequence(available, processes)->0),
{
    lemma_needs_covered(available, processes);
    lemma_trace_never_shrinks(available, safe_sequence(available, processes)->0);
}

/// Taking one member out of a sequence and putting it in front of the
/// others, in whatever order they come, leaves the same members.
pub proof fn lemma_rotation_keeps_members<A>(s: Seq<A>, k: int)
    requires
        0 <= k < s.len(),
    ensures
        (seq![s[k]] + (s.subrange(k + 1, s.len() as int) + s.subrange(0, k))).to_multiset()
            == s.to_multiset(),
{
    let behind = s.subrange(k + 1, s.len() as int);
    let passed = s.subrange(0, k);
    let member = seq![s[k]];
    lemma_multiset_commutative(member, behind + passed);
    lemma_multiset_commutative(behind, passed);
    lemma_multiset_commutative(passed + member, behind);
    lemma_multiset_commutative(passed, member);
    assert((passed + member) + behind =~= s);
    assert((member + (behind + passed)).to_multiset() =~= s.to_multiset());
}

/// Whenever the search finds an order, the processes in it are those that
/// were given, each as often as it was given: none is left out, none runs
/// twice. The same holds of their identifiers.
pub proof fn lemma_same_processes(available: Seq<nat>, processes: Seq<ProcessView>)
    requires
        safe_sequence(available, processes) is Some,
    ensures
        ran(safe_sequence(available, processes)->0).to_multiset() == processes.to_multiset(),
        ids(ran(safe_sequence(available, processes)->0)).to_multiset() == ids(
            processes,
        ).to_multiset(),
        (safe_sequence(available, processes)->0).len() == processes.len(),
    decreases processes.len(),
{
    let trace = safe_sequence(available, processes)->0;
    if processes.len() == 0 {
        assert(ran(trace) =~= processes);
        assert(ids(ran(trace)) =~= ids(processes));
    } else {
        let k = first_runnable(available, processes) as int;
        let released = sum_of(available, processes[k].allocated);
        let others = rotated_after(processes, k);
        let rest = safe_sequence(released, others)->0;
        lemma_same_processes(released, others);
        assert(ran(trace) =~= seq![processes[k]] + ran(rest));
        lemma_multiset_commutative(seq![processes[k]], ran(rest));
        lemma_multiset_commutative(seq![processes[k]], others);
        lemma_rotation_keeps_members(processes, k);
        assert(ids(ran(trace)) =~= seq![processes[k].id] + ids(ran(rest)));
        lemma_multiset_commutative(seq![processes[k].id], ids(ran(rest)));
        lemma_multiset_commutative(seq![processes[k].id], ids(others));
        lemma_rotation_keeps_members(ids(processes), k);
        assert(ids(others) =~= ids(processes).subrange(k + 1, processes.len() as int) + ids(
            processes,
        ).subrange(0, k));
    }
}

/// Where an order is safe, any one process of it may run first: the others
/// can follow in the order they had.
pub proof fn lemma_safe_order_without(available: Seq<nat>, order: Seq<ProcessView>, m: int)
    requires
        is_safe_order(available, order),
        0 <= m < order.len(),
    ensures
        is_safe_order(sum_of(available, order[m].allocated), order.remove(m)),
    decreases order.len(),
{
    if m == 0 {
        assert(order.remove(0) =~= order.drop_first());
    } else {
        let head = order[0];
        let tail = order.drop_first();
        let p = order[m];
        let others = order.remove(m);
        lemma_safe_order_without(sum_of(available, head.allocated), tail, m - 1);
        assert(tail[m - 1] == p);
        assert(others[0] == head);
        assert(others.drop_first() =~= tail.remove(m - 1));
        assert(sum_of(sum_of(available, head.allocated), p.allocated) =~= sum_of(
            sum_of(available, p.allocated),
            head.allocated,
        ));
        assert(runnable(head, sum_of(available, p.allocated)));
    }
}

/// The order that the search finds is safe.
pub proof fn lemma_found_order_is_safe(available: Seq<nat>, processes: Seq<ProcessView>)
    requires
        safe_sequence(available, processes) is Some,
    ensures
        is_safe_order(available, ran(safe_sequence(available, processes)->0)),
    decreases processes.len(),
{
    let trace = safe_sequence(available, processes)->0;
    if processes.len() > 0 {
        let k = first_runnable(available, processes) as int;
        lemma_first_runnable(available, processes);
        let released = sum_of(available, processes[k].allocated);
        let rest = safe_sequence(released, rotated_after(processes, k))->0;
        lemma_found_order_is_safe(released, rotated_after(processes, k));
        assert(ran(trace)[0] == processes[k]);
        assert(ran(trace).drop_first() =~= ran(rest));
    }
}

/// Where the processes can run in some order, the search finds one.
pub proof fn lemma_safe_order_is_found(
    available: Seq<nat>,
    processes: Seq<ProcessView>,
    order: Seq<ProcessView>,
)
    requires
        order.to_multiset() == processes.to_multiset(),
        is_safe_order(available, order),
    ensures
        safe_sequence(available, processes) is Some,
    decreases processes.len(),
{
    to_multiset_len(order);
    to_multiset_len(processes);
    if processes.len() > 0 {
        let first = order[0];
        assert(order.contains(first));
        to_multiset_contains(order, first);
        to_multiset_contains(processes, first);
        let i = choose|i: int| 0 <= i < processes.len() && processes[i] == first;
        lemma_first_runnable(available, processes);
        let k = first_runnable(available, processes) as int;
        if k >= processes.len() {
            assert(!runnable(processes[i], available));
        }
        let p = processes[k];
        assert(processes.contains(p));
        to_multiset_contains(order, p);
        to_multiset_contains(processes, p);
        let m = choose|m: int| 0 <= m < order.len() && order[m] == p;
        lemma_safe_order_without(available, order, m);
        let passed = processes.subrange(0, k);
        let behind = processes.subrange(k + 1, processes.len() as int);
        to_multiset_remove(order, m);
        to_multiset_remove(processes, k);
        assert(processes.remove(k) =~= passed + behind);
        lemma_seq_union_to_multiset_commutative(passed, behind);
        lemma_safe_order_is_found(
            sum_of(available, p.allocated),
            rotated_after(processes, k),
            order.remove(m),
        );
    }
}

/// The search finds an order exactly when the state is safe: it gets stuck
/// only where the processes cannot all run to completion in any order.
pub proof fn lemma_found_iff_safe(available: Seq<nat>, processes: Seq<ProcessView>)
    ensures
        safe_sequence(available, processes) is Some <==> safe_state(available, processes),
{
    if safe_sequence(available, processes) is Some {
        let order = ran(safe_sequence(available, processes)->0);
        lemma_found_order_is_safe(available, processes);
        lemma_same_processes(available, processes);
        assert(order.to_multiset() == processes.to_multiset() && is_safe_order(available, order));
    }
    if safe_state(available, processes) {
        let order = choose|order: Seq<ProcessView>|
            #[trigger] order.to_multiset() == processes.to_multiset() && is_safe_order(
                available,
                order,
            );
        lemma_safe_order_is_found(available, processes, order);
    }
}

} // verus!
