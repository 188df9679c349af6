//! Deriving a contributor's edge set: the full Cartesian product of
//! the contributor's work list with itself, ordered pairs and
//! self-loops included, each attributed to that contributor.

use vstd::prelude::*;
use vstd::arithmetic::div_mod::{
    lemma_fundamental_div_mod, lemma_fundamental_div_mod_converse,
    lemma_mod_division_less_than_divisor,
};
use crate::store::{pair_present, Edge};

verus! {

/// The edge set one contributor induces over its work list: the pair
/// at position `i * n + j` runs from `works[i]` to `works[j]`.
pub open spec fn spec_pair_edges(works: Seq<i64>, person: i64) -> Seq<Edge> {
    Seq::new(
        works.len() * works.len(),
        |k: int|
            Edge {
                previous_node: works[k / works.len() as int],
                next_node: works[k % works.len() as int],
                person,
            },
    )
}

/// Where each ordered pair stands in the derived edge set.
pub proof fn lemma_pair_edges_index(works: Seq<i64>, person: i64, i: int, j: int)
    requires
        0 <= i < works.len(),
        0 <= j < works.len(),
    ensures
        spec_pair_edges(works, person).len() == works.len() * works.len(),
        spec_pair_edges(works, person)[i * works.len() + j] == (Edge {
            previous_node: works[i],
            next_node: works[j],
            person,
        }),
{
    let n = works.len() as int;
    assert(0 <= i * n + j < n * n) by (nonlinear_arith)
        requires
            0 <= i < n,
            0 <= j < n,
    ;
    lemma_fundamental_div_mod_converse(i * n + j, n, i, j);
}

/// A single-work list induces exactly one edge: the self-loop on
/// that work — never zero edges and never two.
pub proof fn lemma_single_work_self_loop(w: i64, person: i64)
    ensures
        spec_pair_edges(seq![w], person) == seq![
            Edge { previous_node: w, next_node: w, person },
        ],
{
    lemma_pair_edges_index(seq![w], person, 0, 0);
    assert(seq![w].len() == 1);
    assert(spec_pair_edges(seq![w], person).len() == 1);
    assert(spec_pair_edges(seq![w], person)[0] == (Edge {
        previous_node: w,
        next_node: w,
        person,
    }));
    assert(spec_pair_edges(seq![w], person) =~= seq![
        Edge { previous_node: w, next_node: w, person },
    ]);
}

/// What the derived edge set holds, pair for pair: an ordered pair
/// `(a, b)` occurs exactly when both `a` and `b` stand in the work
/// list, and every derived edge is attributed to the contributor.
pub proof fn lemma_pair_edges_pairs(works: Seq<i64>, person: i64, a: i64, b: i64)
    ensures
        pair_present(spec_pair_edges(works, person), a, b) <==> (works.contains(a)
            && works.contains(b)),
        forall|k: int|
            0 <= k < spec_pair_edges(works, person).len() ==> (#[trigger] spec_pair_edges(
                works,
                person,
            )[k]).person == person,
{
    let es = spec_pair_edges(works, person);
    let n = works.len() as int;
    if works.contains(a) && works.contains(b) {
        let i = choose|i: int| 0 <= i < n && works[i] == a;
        let j = choose|j: int| 0 <= j < n && works[j] == b;
        lemma_pair_edges_index(works, person, i, j);
        assert(0 <= i * n + j < n * n) by (nonlinear_arith)
            requires
                0 <= i < n,
                0 <= j < n,
        ;
        assert(es[i * n + j].previous_node == a && es[i * n + j].next_node == b);
    }
    if pair_present(es, a, b) {
        let k = choose|k: int|
            0 <= k < es.len() && (#[trigger] es[k]).previous_node == a && es[k].next_node == b;
        lemma_pair_edges_source(works, k);
        assert(works[k / n] == a && works[k % n] == b);
    }
}

/// Every position of the derived edge set decodes into two in-range
/// work list positions.
proof fn lemma_pair_edges_source(works: Seq<i64>, k: int)
    requires
        0 <= k < works.len() * works.len(),
    ensures
        0 <= k / (works.len() as int) < works.len(),
        0 <= k % (works.len() as int) < works.len(),
{
    let n = works.len() as int;
    lemma_fundamental_div_mod(k, n);
    lemma_mod_division_less_than_divisor(k, n);
    let d = k / n;
    let rm = k % n;
    assert(0 <= d < n) by (nonlinear_arith)
        requires
            0 <= k < n * n,
            0 <= rm < n,
            k == n * d + rm,
    ;
}

/// Compute the derived edge set of one contributor.
pub fn derive_edges(works: &Vec<i64>, person: i64) -> (r: Vec<Edge>)
    ensures
        r@ == spec_pair_edges(works@, person),
{
    let n = works.len();
    let mut r: Vec<Edge> = Vec::new();
    let mut i: usize = 0;
    while i < n
        invariant
            works@.len() == n,
            0 <= i <= n,
            r@.len() == i * n,
            forall|k: int| 0 <= k < r@.len() ==> r@[k] == spec_pair_edges(works@, person)[k],
        decreases n - i,
    {
        let mut j: usize = 0;
        while j < n
            invariant
                works@.len() == n,
                0 <= i < n,
                0 <= j <= n,
                r@.len() == i * n + j,
                forall|k: int| 0 <= k < r@.len() ==> r@[k] == spec_pair_edges(works@, person)[k],
            decreases n - j,
        {
            r.push(Edge { previous_node: works[i], next_node: works[j], person });
            proof {
                lemma_pair_edges_index(works@, person, i as int, j as int);
            }
            j = j + 1;
        }
        proof {
            assert((i + 1) * n == i * n + n) by (nonlinear_arith);
        }
        i = i + 1;
    }
    proof {
        assert(r@ =~= spec_pair_edges(works@, person));
    }
    r
}

} // verus!
