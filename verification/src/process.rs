//! Processes, and the record of a process that has run to completion.

use vstd::prelude::*;
use vstd::string::StringExecFns;
use crate::vector::{
    add_vec, all_le, difference_of, is_less_than_or_equal, quantities, representable,
    subtract_vec, sum_of,
};

verus! {

/// Why a process could not be built.
#[derive(Debug, Clone, Copy, PartialEq, Eq, Structural)]
pub enum ConstructionError {
    /// The allocation and the maximum claim differ in length.
    LengthMismatch,
    /// Some resource type is allocated beyond the maximum claim.
    MaxBelowAllocation,
}

impl ConstructionError {
    /// The text that reports this error.
    pub open spec fn text(self) -> Seq<char> {
        match self {
            ConstructionError::LengthMismatch => "Vectors not same length"@,
            ConstructionError::MaxBelowAllocation => "Max is lower then allocate"@,
        }
    }

    /// The text that reports this error.
    pub fn message(&self) -> (s: String)
        ensures
            s@ == self.text(),
    {
        match self {
            ConstructionError::LengthMismatch => String::from_str("Vectors not same length"),
            ConstructionError::MaxBelowAllocation => String::from_str(
                "Max is lower then allocate",
            ),
        }
    }
}

/// What a process is: its identifier, what it holds and what it may claim at
/// most, one count per resource type.
pub ghost struct ProcessView {
    pub id: nat,
    pub allocated: Seq<nat>,
    pub max_claim: Seq<nat>,
}

impl ProcessView {
    /// The number of resource types.
    pub open spec fn dimension(self) -> nat {
        self.allocated.len()
    }

    /// Nothing is allocated beyond the maximum claim.
    pub open spec fn wf(self) -> bool {
        all_le(self.allocated, self.max_claim)
    }

    /// What the process may still ask for: maximum claim less allocation.
    pub open spec fn need(self) -> Seq<nat> {
        difference_of(self.max_claim, self.allocated)
    }
}

/// The error that building a process from these two vectors gives, if any.
/// The lengths are compared first.
pub open spec fn construction_error(allocated: Seq<nat>, max_claim: Seq<nat>) -> Option<
    ConstructionError,
> {
    if allocated.len() != max_claim.len() {
        Some(ConstructionError::LengthMismatch)
    } else if !all_le(allocated, max_claim) {
        Some(ConstructionError::MaxBelowAllocation)
    } else {
        None
    }
}

/// A process that holds resources and may claim more, up to its maximum.
#[derive(Debug, PartialEq)]
pub struct Process {
    id: u32,
    resources_allocated: Vec<u32>,
    resource_max: Vec<u32>,
}

impl View for Process {
    type V = ProcessView;

    closed spec fn view(&self) -> ProcessView {
        ProcessView {
            id: self.id as nat,
            allocated: quantities(self.resources_allocated@),
            max_claim: quantities(self.resource_max@),
        }
    }
}

impl Clone for Process {
    fn clone(&self) -> (copy: Self)
        ensures
            copy@ == self@,
    {
        proof {
            use_type_invariant(self);
        }
        let resources_allocated = self.resources_allocated.clone();
        let resource_max = self.resource_max.clone();
        assert(resources_allocated@ =~= self.resources_allocated@);
        assert(resource_max@ =~= self.resource_max@);
        Process { id: self.id, resources_allocated, resource_max }
    }
}

impl Process {
    #[verifier::type_invariant]
    spec fn inv(self) -> bool {
        self@.wf()
    }

    /// Builds a process. Fails when the two vectors differ in length, or
    /// when the allocation exceeds the maximum claim in some position.
    pub fn new(id: u32, allocate: Vec<u32>, max: Vec<u32>) -> (made: Result<
        Process,
        ConstructionError,
    >)
        ensures
            match made {
                Ok(p) => {
                    &&& construction_error(quantities(allocate@), quantities(max@)) is None
                    &&& p@ == (ProcessView {
                        id: id as nat,
                        allocated: quantities(allocate@),
                        max_claim: quantities(max@),
                    })
                    &&& p@.wf()
                },
                Err(e) => construction_error(quantities(allocate@), quantities(max@)) == Some(e),
            },
    {
        if allocate.len() != max.len() {
            return Err(ConstructionError::LengthMismatch);
        }
        if !is_less_than_or_equal(&allocate, &max) {
            return Err(ConstructionError::MaxBelowAllocation);
        }
        Ok(Process { id, resource_max: max, resources_allocated: allocate })
    }

    /// The identifier.
    pub fn id(&self) -> (id: u32)
        ensures
            id == self@.id,
    {
        self.id
    }

    /// What the process holds.
    pub fn allocated(&self) -> (held: &Vec<u32>)
        ensures
            quantities(held@) == self@.allocated,
            held.len() == self@.dimension(),
            self@.wf(),
    {
        proof {
            use_type_invariant(self);
        }
        &self.resources_allocated
    }

    /// What the process may hold at most.
    pub fn max_claim(&self) -> (claim: &Vec<u32>)
        ensures
            quantities(claim@) == self@.max_claim,
            claim.len() == self@.dimension(),
            self@.wf(),
    {
        proof {
            use_type_invariant(self);
        }
        &self.resource_max
    }

    /// What the process may still ask for: maximum claim less allocation.
    pub fn resources_needed(&self) -> (need: Vec<u32>)
        ensures
            quantities(need@) == self@.need(),
            need.len() == self@.dimension(),
            self@.wf(),
    {
        proof {
            use_type_invariant(self);
        }
        subtract_vec(&self.resource_max, &self.resources_allocated)
    }

    /// Lets the process run to completion on `available`: what it held goes
    /// back to the pool. Gives the record of the run and the new pool.
    pub fn to_ran_process(self, available: Vec<u32>) -> (done: (RanProcess, Vec<u32>))
        requires
            available.len() == self@.dimension(),
            representable(sum_of(quantities(available@), self@.allocated)),
        ensures
            done.0@ == (RanProcessView {
                process: self@,
                available: sum_of(quantities(available@), self@.allocated),
            }),
            quantities(done.1@) == sum_of(quantities(available@), self@.allocated),
    {
        let pool = add_vec(&available, &self.resources_allocated);
        let snapshot = pool.clone();
        assert(snapshot@ =~= pool@);
        (RanProcess { process: self, available: snapshot }, pool)
    }
}

/// What the record of a completed process says: the process, and what was
/// available right after it gave back its allocation.
pub ghost struct RanProcessView {
    pub process: ProcessView,
    pub available: Seq<nat>,
}

/// A process that has run, with the pool as it stood right after.
#[derive(Debug, PartialEq)]
pub struct RanProcess {
    pub process: Process,
    pub available: Vec<u32>,
}

impl Clone for RanProcess {
    fn clone(&self) -> (copy: Self)
        ensures
            copy@ == self@,
    {
        let process = self.process.clone();
        let available = self.available.clone();
        assert(available@ =~= self.available@);
        RanProcess { process, available }
    }
}

impl View for RanProcess {
    type V = RanProcessView;

    open spec fn view(&self) -> RanProcessView {
        RanProcessView { process: self.process@, available: quantities(self.available@) }
    }
}

/// What a vector of processes stands for.
pub open spec fn models(processes: Seq<Process>) -> Seq<ProcessView> {
    Seq::new(processes.len(), |i: int| processes[i]@)
}

/// What a vector of records stands for.
pub open spec fn records(ran: Seq<RanProcess>) -> Seq<RanProcessView> {
    Seq::new(ran.len(), |i: int| ran[i]@)
}

} // verus!
