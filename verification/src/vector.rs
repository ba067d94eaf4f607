//! Elementwise arithmetic and comparison on resource vectors.
//!
//! A resource vector holds one count per resource type. In executable code it
//! is a `Vec<u32>`; contracts speak of the natural numbers it stands for.

use vstd::prelude::*;

verus! {

/// The counts that a resource vector holds, as natural numbers.
pub open spec fn quantities(v: Seq<u32>) -> Seq<nat> {
    Seq::new(v.len(), |i: int| v[i] as nat)
}

/// Every count fits in a `u32`.
pub open spec fn representable(v: Seq<nat>) -> bool {
    forall|i: int| 0 <= i < v.len() ==> #[trigger] v[i] <= u32::MAX
}

/// Elementwise sum of two vectors of one length.
pub open spec fn sum_of(a: Seq<nat>, b: Seq<nat>) -> Seq<nat> {
    Seq::new(a.len(), |i: int| a[i] + b[i])
}

/// Elementwise difference `a - b`, meant for `b` at most `a`.
pub open spec fn difference_of(a: Seq<nat>, b: Seq<nat>) -> Seq<nat> {
    Seq::new(a.len(), |i: int| (a[i] - b[i]) as nat)
}

/// `a` and `b` have one length and `a[i] <= b[i]` in every position.
pub open spec fn all_le(a: Seq<nat>, b: Seq<nat>) -> bool {
    &&& a.len() == b.len()
    &&& forall|i: int| 0 <= i < a.len() ==> a[i] <= b[i]
}

/// `a` and `b` have one length and `a[i] < b[i]` in every position.
pub open spec fn all_lt(a: Seq<nat>, b: Seq<nat>) -> bool {
    &&& a.len() == b.len()
    &&& forall|i: int| 0 <= i < a.len() ==> a[i] < b[i]
}

/// Two vectors that stand for the same counts are the same vector.
pub proof fn lemma_quantities_injective(v: Seq<u32>, w: Seq<u32>)
    requires
        quantities(v) == quantities(w),
    ensures
        v == w,
{
    assert(v.len() == quantities(v).len());
    assert(w.len() == quantities(w).len());
    assert forall|i: int| 0 <= i < v.len() implies v[i] == w[i] by {
        assert(quantities(v)[i] == v[i] as nat);
        assert(quantities(w)[i] == w[i] as nat);
    }
    assert(v =~= w);
}

/// Being at most is transitive.
pub proof fn lemma_all_le_transitive(a: Seq<nat>, b: Seq<nat>, c: Seq<nat>)
    requires
        all_le(a, b),
        all_le(b, c),
    ensures
        all_le(a, c),
{
    assert forall|i: int| 0 <= i < a.len() implies a[i] <= c[i] by {
        assert(a[i] <= b[i]);
        assert(b[i] <= c[i]);
    }
}

/// Adding back what was taken away gives the vector one started from:
/// whenever `b` is at most `a`, `(a - b) + b` is `a`.
pub proof fn lemma_difference_then_sum(a: Seq<nat>, b: Seq<nat>)
    requires
        all_le(b, a),
    ensures
        sum_of(difference_of(a, b), b) == a,
{
    assert(sum_of(difference_of(a, b), b) =~= a);
}

/// Subtracting and adding back gives the vector one started from: where
/// `allocated` is at most `max`, `need` is what `subtract_vec` gives for
/// `max` less `allocated`, and `back` is what `add_vec` gives for `need` and
/// `allocated`, `back` is `max`.
pub proof fn lemma_subtract_then_add(
    max: Seq<u32>,
    allocated: Seq<u32>,
    need: Seq<u32>,
    back: Seq<u32>,
)
    requires
        all_le(quantities(allocated), quantities(max)),
        quantities(need) == difference_of(quantities(max), quantities(allocated)),
        quantities(back) == sum_of(quantities(need), quantities(allocated)),
    ensures
        representable(sum_of(quantities(need), quantities(allocated))),
        back == max,
{
    lemma_difference_then_sum(quantities(max), quantities(allocated));
    lemma_quantities_injective(back, max);
}

/// Elementwise sum.
pub fn add_vec(a: &Vec<u32>, b: &Vec<u32>) -> (total: Vec<u32>)
    requires
        a.len() == b.len(),
        representable(sum_of(quantities(a@), quantities(b@))),
    ensures
        total.len() == a.len(),
        forall|i: int| 0 <= i < a.len() ==> total[i] == a[i] + b[i],
        quantities(total@) == sum_of(quantities(a@), quantities(b@)),
{
    let mut total: Vec<u32> = Vec::new();
    let mut i: usize = 0;
    while i < a.len()
        invariant
            a.len() == b.len(),
            representable(sum_of(quantities(a@), quantities(b@))),
            i <= a.len(),
            total.len() == i,
            forall|k: int| 0 <= k < i ==> total[k] == a[k] + b[k],
        decreases a.len() - i,
    {
        assert(sum_of(quantities(a@), quantities(b@))[i as int] <= u32::MAX);
        total.push(a[i] + b[i]);
        i += 1;
    }
    assert(quantities(total@) =~= sum_of(quantities(a@), quantities(b@)));
    total
}

/// Elementwise difference `a - b`.
pub fn subtract_vec(a: &Vec<u32>, b: &Vec<u32>) -> (rest: Vec<u32>)
    requires
        all_le(quantities(b@), quantities(a@)),
    ensures
        rest.len() == a.len(),
        forall|i: int| 0 <= i < a.len() ==> rest[i] == a[i] - b[i],
        quantities(rest@) == difference_of(quantities(a@), quantities(b@)),
{
    let mut rest: Vec<u32> = Vec::new();
    let mut i: usize = 0;
    while i < a.len()
        invariant
            all_le(quantities(b@), quantities(a@)),
            i <= a.len(),
            rest.len() == i,
            forall|k: int| 0 <= k < i ==> rest[k] == a[k] - b[k],
        decreases a.len() - i,
    {
        assert(quantities(b@)[i as int] <= quantities(a@)[i as int]);
        rest.push(a[i] - b[i]);
        i += 1;
    }
    assert(quantities(rest@) =~= difference_of(quantities(a@), quantities(b@)));
    rest
}

/// Whether `a[i] <= b[i]` in every position.
pub fn is_less_than_or_equal(a: &Vec<u32>, b: &Vec<u32>) -> (within: bool)
    requires
        a.len() == b.len(),
    ensures
        within == (forall|i: int| 0 <= i < a.len() ==> a[i] <= b[i]),
        within == all_le(quantities(a@), quantities(b@)),
{
    let mut i: usize = 0;
    while i < a.len()
        invariant
            a.len() == b.len(),
            i <= a.len(),
            forall|k: int| 0 <= k < i ==> a[k] <= b[k],
        decreases a.len() - i,
    {
        if a[i] > b[i] {
            assert(quantities(a@)[i as int] > quantities(b@)[i as int]);
            return false;
        }
        i += 1;
    }
    true
}

/// Whether `a[i] < b[i]` in every position.
pub fn is_less_than(a: &Vec<u32>, b: &Vec<u32>) -> (below: bool)
    requires
        a.len() == b.len(),
    ensures
        below == (forall|i: int| 0 <= i < a.len() ==> a[i] < b[i]),
        below == all_lt(quantities(a@), quantities(b@)),
{
    let mut i: usize = 0;
    while i < a.len()
        invariant
            a.len() == b.len(),
            i <= a.len(),
            forall|k: int| 0 <= k < i ==> a[k] < b[k],
        decreases a.len() - i,
    {
        if a[i] >= b[i] {
            assert(quantities(a@)[i as int] >= quantities(b@)[i as int]);
            return false;
        }
        i += 1;
    }
    true
}

} // verus!
