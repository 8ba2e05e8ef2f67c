//! Counting and summation over node selections: the vocabulary in which the
//! solver's two counters are specified, with the lemmas the solver's loop
//! invariants need.

use crate::graph::GraphShape;
use crate::result::Dist;
use vstd::prelude::*;

verus! {

/// How many of the nodes `0 .. k` the selection picks.
pub open spec fn count_if(sel: spec_fn(int) -> bool, k: int) -> int
    decreases k,
{
    if k <= 0 {
        0
    } else {
        count_if(sel, k - 1) + if sel(k - 1) {
            1int
        } else {
            0int
        }
    }
}

/// Sum of the out-degrees of the selected nodes among `0 .. k`.
pub open spec fn sum_outdeg_if(g: GraphShape, sel: spec_fn(int) -> bool, k: int) -> int
    decreases k,
{
    if k <= 0 {
        0
    } else {
        sum_outdeg_if(g, sel, k - 1) + if sel(k - 1) {
            g.outdeg(k - 1)
        } else {
            0int
        }
    }
}

/// The nodes a boolean flag sequence marks.
pub open spec fn seq_marked(flags: Seq<bool>) -> spec_fn(int) -> bool {
    |v: int| 0 <= v < flags.len() && flags[v]
}

/// The nodes a distance sequence records a finite cost for.
pub open spec fn dist_finite_sel(dist: Seq<Dist>) -> spec_fn(int) -> bool {
    |v: int| 0 <= v < dist.len() && dist[v].is_finite()
}

/// The nodes reachable from `source`.
pub open spec fn reachable_sel(g: GraphShape, source: int) -> spec_fn(int) -> bool {
    |v: int| g.reachable(source, v)
}

/// A count lies between 0 and the range length.
pub proof fn lemma_count_if_bounds(sel: spec_fn(int) -> bool, k: int)
    requires
        k >= 0,
    ensures
        0 <= count_if(sel, k) <= k,
    decreases k,
{
    if k > 0 {
        lemma_count_if_bounds(sel, k - 1);
    }
}

/// Selections that agree on the range have the same count.
pub proof fn lemma_count_if_agree(sel1: spec_fn(int) -> bool, sel2: spec_fn(int) -> bool, k: int)
    requires
        forall|v: int| 0 <= v < k ==> #[trigger] sel1(v) == sel2(v),
    ensures
        count_if(sel1, k) == count_if(sel2, k),
    decreases k,
{
    if k > 0 {
        lemma_count_if_agree(sel1, sel2, k - 1);
    }
}

/// Newly selecting one node raises the count by one.
pub proof fn lemma_count_if_flip(
    sel1: spec_fn(int) -> bool,
    sel2: spec_fn(int) -> bool,
    i: int,
    k: int,
)
    requires
        0 <= i < k,
        !sel1(i),
        sel2(i),
        forall|v: int| 0 <= v < k && v != i ==> #[trigger] sel1(v) == sel2(v),
    ensures
        count_if(sel2, k) == count_if(sel1, k) + 1,
    decreases k,
{
    if i == k - 1 {
        lemma_count_if_agree(sel1, sel2, k - 1);
    } else {
        lemma_count_if_flip(sel1, sel2, i, k - 1);
    }
}

/// An empty selection counts zero.
pub proof fn lemma_count_if_none(sel: spec_fn(int) -> bool, k: int)
    requires
        forall|v: int| 0 <= v < k ==> !(#[trigger] sel(v)),
    ensures
        count_if(sel, k) == 0,
    decreases k,
{
    if k > 0 {
        lemma_count_if_none(sel, k - 1);
    }
}

/// Selections that agree on the range have the same out-degree sum.
pub proof fn lemma_sum_outdeg_if_agree(
    g: GraphShape,
    sel1: spec_fn(int) -> bool,
    sel2: spec_fn(int) -> bool,
    k: int,
)
    requires
        forall|v: int| 0 <= v < k ==> #[trigger] sel1(v) == sel2(v),
    ensures
        sum_outdeg_if(g, sel1, k) == sum_outdeg_if(g, sel2, k),
    decreases k,
{
    if k > 0 {
        lemma_sum_outdeg_if_agree(g, sel1, sel2, k - 1);
    }
}

/// Newly selecting one node adds exactly its out-degree to the sum.
pub proof fn lemma_sum_outdeg_if_flip(
    g: GraphShape,
    sel1: spec_fn(int) -> bool,
    sel2: spec_fn(int) -> bool,
    i: int,
    k: int,
)
    requires
        0 <= i < k,
        !sel1(i),
        sel2(i),
        forall|v: int| 0 <= v < k && v != i ==> #[trigger] sel1(v) == sel2(v),
    ensures
        sum_outdeg_if(g, sel2, k) == sum_outdeg_if(g, sel1, k) + g.outdeg(i),
    decreases k,
{
    if i == k - 1 {
        lemma_sum_outdeg_if_agree(g, sel1, sel2, k - 1);
    } else {
        lemma_sum_outdeg_if_flip(g, sel1, sel2, i, k - 1);
    }
}

/// An empty selection sums to zero.
pub proof fn lemma_sum_outdeg_if_none(g: GraphShape, sel: spec_fn(int) -> bool, k: int)
    requires
        forall|v: int| 0 <= v < k ==> !(#[trigger] sel(v)),
    ensures
        sum_outdeg_if(g, sel, k) == 0,
    decreases k,
{
    if k > 0 {
        lemma_sum_outdeg_if_none(g, sel, k - 1);
    }
}

/// On a structurally sound graph, any selection's out-degree sum lies between
/// 0 and the span of the offsets array.
pub proof fn lemma_sum_outdeg_if_le(g: GraphShape, sel: spec_fn(int) -> bool, k: int)
    requires
        g.csr_in_bounds(),
        0 <= k <= g.node_count,
    ensures
        0 <= sum_outdeg_if(g, sel, k) <= g.offsets[k] - g.offsets[0],
    decreases k,
{
    if k > 0 {
        lemma_sum_outdeg_if_le(g, sel, k - 1);
        assert(g.offsets[k - 1] <= g.offsets[k]);
    }
}

} // verus!
