//! Row types and in-memory models of the graph store's tables.
//!
//! The real store is relational and shared by all workers; what is
//! modelled here is its contract: the edge table keeps at most one
//! row per ordered `(previous_node, next_node)` pair and resolves
//! conflicting writes as no-ops (first writer wins), and the people
//! table translates a dense 1-based index into an external id.

use vstd::prelude::*;
use crate::error::IngestError;

verus! {

/// A catalog work row: external id and display title.
#[derive(Clone, Debug, PartialEq, Eq)]
pub struct Movie {
    pub id: i64,
    pub original_title: String,
}

/// A contributor row: external id and display name. Its dense,
/// 1-based position in the people table is the unit the partitioner
/// divides; it is not the external id and must be translated before
/// any catalog call.
#[derive(Clone, Debug, PartialEq, Eq)]
pub struct Person {
    pub id: i64,
    pub name: String,
}

/// A co-occurrence edge between two works, attributed to the
/// contributor that links them. Identity is the ordered pair
/// `(previous_node, next_node)`; self-loops are meaningful.
#[derive(Clone, Copy, Debug, PartialEq, Eq, Structural)]
pub struct Edge {
    pub previous_node: i64,
    pub next_node: i64,
    pub person: i64,
}

/// Whether some row of `rows` already carries the ordered pair
/// `(prev, next)`.
pub open spec fn pair_present(rows: Seq<Edge>, prev: i64, next: i64) -> bool {
    exists|k: int|
        0 <= k < rows.len() && (#[trigger] rows[k]).previous_node == prev && rows[k].next_node
            == next
}

/// One idempotent edge write: a no-op when the pair is already
/// present, an append otherwise. The present row's contributor is
/// never touched (first writer wins).
pub open spec fn spec_insert_edge(rows: Seq<Edge>, e: Edge) -> Seq<Edge> {
    if pair_present(rows, e.previous_node, e.next_node) {
        rows
    } else {
        rows.push(e)
    }
}

/// A bulk edge write: the idempotent single write folded over `es`
/// from the left, in order.
pub open spec fn spec_insert_edges(rows: Seq<Edge>, es: Seq<Edge>) -> Seq<Edge>
    decreases es.len(),
{
    if es.len() == 0 {
        rows
    } else {
        spec_insert_edges(spec_insert_edge(rows, es[0]), es.drop_first())
    }
}

/// The edge table's invariant: no two rows share an ordered pair.
pub open spec fn edges_wf(rows: Seq<Edge>) -> bool {
    forall|a: int, b: int|
        0 <= a < b < rows.len() ==> !((#[trigger] rows[a]).previous_node
            == (#[trigger] rows[b]).previous_node && rows[a].next_node == rows[b].next_node)
}

/// The first row of `rows` carrying the pair `(prev, next)`, if any.
pub open spec fn spec_edge_lookup(rows: Seq<Edge>, prev: i64, next: i64) -> Option<Edge>
    decreases rows.len(),
{
    if rows.len() == 0 {
        None
    } else if rows[0].previous_node == prev && rows[0].next_node == next {
        Some(rows[0])
    } else {
        spec_edge_lookup(rows.drop_first(), prev, next)
    }
}

/// In-memory model of the edge table.
pub struct EdgeTable {
    rows: Vec<Edge>,
}

impl View for EdgeTable {
    type V = Seq<Edge>;

    closed spec fn view(&self) -> Seq<Edge> {
        self.rows@
    }
}

impl EdgeTable {
    /// The table's invariant: at most one row per ordered pair.
    pub open spec fn wf(self) -> bool {
        edges_wf(self@)
    }

    pub fn new() -> (r: Self)
        ensures
            r@ == Seq::<Edge>::empty(),
            r.wf(),
    {
        EdgeTable { rows: Vec::new() }
    }

    /// Whether a row with the ordered pair `(prev, next)` exists.
    pub fn contains_pair(&self, prev: i64, next: i64) -> (r: bool)
        ensures
            r == pair_present(self@, prev, next),
    {
        let mut k: usize = 0;
        while k < self.rows.len()
            invariant
                0 <= k <= self.rows.len(),
                self.rows@ == self@,
                forall|a: int|
                    0 <= a < k ==> !((#[trigger] self@[a]).previous_node == prev && self@[a].next_node
                        == next),
            decreases self.rows.len() - k,
        {
            if self.rows[k].previous_node == prev && self.rows[k].next_node == next {
                return true;
            }
            k = k + 1;
        }
        false
    }

    /// The contributor attributed to the pair `(prev, next)`, if a
    /// row for it exists.
    pub fn get_person(&self, prev: i64, next: i64) -> (r: Option<i64>)
        ensures
            r == match spec_edge_lookup(self@, prev, next) {
                Some(e) => Some(e.person),
                None => None::<i64>,
            },
    {
        let mut k: usize = 0;
        proof {
            assert(self@.skip(0) =~= self@);
        }
        while k < self.rows.len()
            invariant
                0 <= k <= self.rows.len(),
                self.rows@ == self@,
                spec_edge_lookup(self@, prev, next) == spec_edge_lookup(
                    self@.skip(k as int),
                    prev,
                    next,
                ),
            decreases self.rows.len() - k,
        {
            proof {
                lemma_edge_lookup_step(self@, prev, next, k as int);
            }
            if self.rows[k].previous_node == prev && self.rows[k].next_node == next {
                return Some(self.rows[k].person);
            }
            k = k + 1;
        }
        None
    }

    /// Write one edge idempotently: a no-op when the ordered pair is
    /// already present, keeping the present row's contributor.
    pub fn insert(&mut self, e: Edge)
        requires
            old(self).wf(),
        ensures
            final(self)@ == spec_insert_edge(old(self)@, e),
            final(self).wf(),
    {
        if !self.contains_pair(e.previous_node, e.next_node) {
            proof {
                lemma_insert_new_pair_wf(self@, e);
            }
            self.rows.push(e);
        }
    }

    /// Write every edge of `es` in order, each idempotently; this is
    /// how a worker persists one contributor's derived edge set.
    pub fn insert_bulk(&mut self, es: &Vec<Edge>)
        requires
            old(self).wf(),
        ensures
            final(self)@ == spec_insert_edges(old(self)@, es@),
            final(self).wf(),
    {
        let mut i: usize = 0;
        while i < es.len()
            invariant
                0 <= i <= es.len(),
                self.wf(),
                self@ == spec_insert_edges(old(self)@, es@.take(i as int)),
            decreases es.len() - i,
        {
            proof {
                lemma_insert_edges_snoc(old(self)@, es@.take(i as int), es@[i as int]);
                assert(es@.take(i as int).push(es@[i as int]) =~= es@.take(i as int + 1));
            }
            self.insert(es[i]);
            i = i + 1;
        }
        proof {
            assert(es@.take(es@.len() as int) =~= es@);
        }
    }

    /// Number of edge rows.
    pub fn count(&self) -> (r: usize)
        ensures
            r == self@.len(),
    {
        self.rows.len()
    }
}

/// Scanning past a non-matching row does not change what the lookup
/// finds.
proof fn lemma_edge_lookup_step(rows: Seq<Edge>, prev: i64, next: i64, k: int)
    requires
        0 <= k < rows.len(),
    ensures
        rows[k].previous_node == prev && rows[k].next_node == next ==> spec_edge_lookup(
            rows.skip(k),
            prev,
            next,
        ) == Some(rows[k]),
        !(rows[k].previous_node == prev && rows[k].next_node == next) ==> spec_edge_lookup(
            rows.skip(k),
            prev,
            next,
        ) == spec_edge_lookup(rows.skip(k + 1), prev, next),
{
    assert(rows.skip(k)[0] == rows[k]);
    assert(rows.skip(k).drop_first() =~= rows.skip(k + 1));
}

/// Appending an edge whose pair is absent preserves the invariant.
proof fn lemma_insert_new_pair_wf(rows: Seq<Edge>, e: Edge)
    requires
        edges_wf(rows),
        !pair_present(rows, e.previous_node, e.next_node),
    ensures
        edges_wf(rows.push(e)),
{
    let rows2 = rows.push(e);
    assert forall|a: int, b: int| 0 <= a < b < rows2.len() implies !((#[trigger] rows2[a]).previous_node
        == (#[trigger] rows2[b]).previous_node && rows2[a].next_node == rows2[b].next_node) by {
        if b == rows.len() {
            assert(rows2[a] == rows[a]);
            assert(rows2[b] == e);
        } else {
            assert(rows2[a] == rows[a]);
            assert(rows2[b] == rows[b]);
        }
    }
}

/// The left fold over `es.push(e)` is the fold over `es` followed by
/// one more write.
proof fn lemma_insert_edges_snoc(rows: Seq<Edge>, es: Seq<Edge>, e: Edge)
    ensures
        spec_insert_edges(rows, es.push(e)) == spec_insert_edge(spec_insert_edges(rows, es), e),
    decreases es.len(),
{
    if es.len() == 0 {
        assert(es.push(e)[0] == e);
        assert(es.push(e).drop_first() =~= Seq::<Edge>::empty());
        assert(spec_insert_edges(rows, es.push(e)) == spec_insert_edges(
            spec_insert_edge(rows, e),
            Seq::<Edge>::empty(),
        ));
        assert(spec_insert_edges(spec_insert_edge(rows, e), Seq::<Edge>::empty())
            == spec_insert_edge(rows, e));
        assert(spec_insert_edges(rows, es) == rows);
    } else {
        assert(es.push(e)[0] == es[0]);
        assert(es.push(e).drop_first() =~= es.drop_first().push(e));
        lemma_insert_edges_snoc(spec_insert_edge(rows, es[0]), es.drop_first(), e);
        assert(spec_insert_edges(rows, es.push(e)) == spec_insert_edges(
            spec_insert_edge(rows, es[0]),
            es.drop_first().push(e),
        ));
        assert(spec_insert_edges(rows, es) == spec_insert_edges(
            spec_insert_edge(rows, es[0]),
            es.drop_first(),
        ));
    }
}

/// Writing the same ordered pair again is a no-op, whatever
/// contributor the later write carries: the row written first is
/// retained unchanged.
pub proof fn lemma_insert_idempotent(rows: Seq<Edge>, e1: Edge, e2: Edge)
    requires
        e1.previous_node == e2.previous_node,
        e1.next_node == e2.next_node,
    ensures
        spec_insert_edge(spec_insert_edge(rows, e1), e2) == spec_insert_edge(rows, e1),
{
    let rows1 = spec_insert_edge(rows, e1);
    if pair_present(rows, e1.previous_node, e1.next_node) {
        assert(rows1 == rows);
    } else {
        assert(rows1 == rows.push(e1));
        assert(rows1[rows.len() as int] == e1);
        assert(pair_present(rows1, e2.previous_node, e2.next_node));
    }
}

/// If the pair of `e1` is absent, the write appends `e1`, and the
/// only row carrying that pair afterwards is `e1` itself — so a later
/// conflicting write with another contributor changes nothing.
pub proof fn lemma_first_writer_wins(rows: Seq<Edge>, e1: Edge, e2: Edge)
    requires
        !pair_present(rows, e1.previous_node, e1.next_node),
        e1.previous_node == e2.previous_node,
        e1.next_node == e2.next_node,
    ensures
        spec_insert_edge(spec_insert_edge(rows, e1), e2) == rows.push(e1),
        forall|k: int|
            0 <= k < rows.push(e1).len() && (#[trigger] rows.push(e1)[k]).previous_node
                == e1.previous_node && rows.push(e1)[k].next_node == e1.next_node ==> rows.push(
                e1,
            )[k] == e1,
{
    lemma_insert_idempotent(rows, e1, e2);
    let rows1 = rows.push(e1);
    assert forall|k: int|
        0 <= k < rows1.len() && (#[trigger] rows1[k]).previous_node == e1.previous_node
            && rows1[k].next_node == e1.next_node implies rows1[k] == e1 by {
        if k < rows.len() {
            assert(rows1[k] == rows[k]);
            assert(pair_present(rows, e1.previous_node, e1.next_node));
        }
    }
}

/// A pair is present after one idempotent write exactly when it was
/// present before or is the written edge's pair.
proof fn lemma_insert_edge_pairs(rows: Seq<Edge>, e: Edge, prev: i64, next: i64)
    ensures
        pair_present(spec_insert_edge(rows, e), prev, next) <==> (pair_present(rows, prev, next)
            || (e.previous_node == prev && e.next_node == next)),
{
    let rows1 = spec_insert_edge(rows, e);
    if pair_present(rows, e.previous_node, e.next_node) {
        assert(rows1 == rows);
        if e.previous_node == prev && e.next_node == next {
            assert(pair_present(rows, prev, next));
        }
    } else {
        assert(rows1 == rows.push(e));
        assert(rows1[rows.len() as int] == e);
        if pair_present(rows, prev, next) {
            let k = choose|k: int|
                0 <= k < rows.len() && (#[trigger] rows[k]).previous_node == prev
                    && rows[k].next_node == next;
            assert(rows1[k] == rows[k]);
        }
        if pair_present(rows1, prev, next) {
            let k = choose|k: int|
                0 <= k < rows1.len() && (#[trigger] rows1[k]).previous_node == prev
                    && rows1[k].next_node == next;
            if k < rows.len() {
                assert(rows[k] == rows1[k]);
            }
        }
    }
}

/// Store-side dedup over a bulk write: after folding `es` into
/// `rows`, a pair is present exactly when it was present before or
/// occurs in `es` — pre-existing pairs absorb their writes, missing
/// pairs are added, and nothing else enters the pair set.
pub proof fn lemma_insert_edges_pairs(rows: Seq<Edge>, es: Seq<Edge>, prev: i64, next: i64)
    ensures
        pair_present(spec_insert_edges(rows, es), prev, next) <==> (pair_present(rows, prev, next)
            || pair_present(es, prev, next)),
    decreases es.len(),
{
    if es.len() == 0 {
    } else {
        lemma_insert_edge_pairs(rows, es[0], prev, next);
        lemma_insert_edges_pairs(spec_insert_edge(rows, es[0]), es.drop_first(), prev, next);
        assert forall|k: int|
            0 <= k < es.drop_first().len() && (#[trigger] es.drop_first()[k]).previous_node == prev
                && es.drop_first()[k].next_node == next implies pair_present(es, prev, next) by {
            assert(es[k + 1] == es.drop_first()[k]);
        }
        if pair_present(es, prev, next) {
            let k = choose|k: int|
                0 <= k < es.len() && (#[trigger] es[k]).previous_node == prev && es[k].next_node
                    == next;
            if k > 0 {
                assert(es.drop_first()[k - 1] == es[k]);
            }
        }
    }
}

/// A bulk write whose every pair is already present changes nothing.
proof fn lemma_insert_edges_present_noop(rows: Seq<Edge>, es: Seq<Edge>)
    requires
        forall|k: int|
            0 <= k < es.len() ==> pair_present(
                rows,
                (#[trigger] es[k]).previous_node,
                es[k].next_node,
            ),
    ensures
        spec_insert_edges(rows, es) == rows,
    decreases es.len(),
{
    if es.len() > 0 {
        assert(pair_present(rows, es[0].previous_node, es[0].next_node));
        assert(spec_insert_edge(rows, es[0]) == rows);
        assert forall|k: int| 0 <= k < es.drop_first().len() implies pair_present(
            rows,
            (#[trigger] es.drop_first()[k]).previous_node,
            es.drop_first()[k].next_node,
        ) by {
            assert(es.drop_first()[k] == es[k + 1]);
        }
        lemma_insert_edges_present_noop(rows, es.drop_first());
    }
}

/// Writing the same batch again is a no-op: ingestion can be re-run
/// safely, since every pair the batch carries is already in the
/// store after the first run.
pub proof fn lemma_rerun_idempotent(rows: Seq<Edge>, es: Seq<Edge>)
    ensures
        spec_insert_edges(spec_insert_edges(rows, es), es) == spec_insert_edges(rows, es),
{
    let once = spec_insert_edges(rows, es);
    assert forall|k: int| 0 <= k < es.len() implies pair_present(
        once,
        (#[trigger] es[k]).previous_node,
        es[k].next_node,
    ) by {
        assert(pair_present(es, es[k].previous_node, es[k].next_node));
        lemma_insert_edges_pairs(rows, es, es[k].previous_node, es[k].next_node);
    }
    lemma_insert_edges_present_noop(once, es);
}

/// In-memory model of the people table: rows in dense-index order,
/// the row of index `i` standing at position `i - 1`.
pub struct PeopleTable {
    rows: Vec<Person>,
}

impl View for PeopleTable {
    type V = Seq<Person>;

    closed spec fn view(&self) -> Seq<Person> {
        self.rows@
    }
}

impl PeopleTable {
    pub fn from_rows(rows: Vec<Person>) -> (r: Self)
        ensures
            r@ == rows@,
    {
        PeopleTable { rows }
    }

    /// Number of contributor rows: the size of the index universe the
    /// partitioner divides.
    pub fn count(&self) -> (r: i64)
        requires
            self@.len() <= i64::MAX,
        ensures
            r == self@.len(),
    {
        self.rows.len() as i64
    }

    /// Translate a dense 1-based index into the contributor's
    /// external id. An index with no row is a consistency failure:
    /// it is reported, never skipped.
    pub fn get_tmdb_id(&self, index: i64) -> (r: Result<i64, IngestError>)
        requires
            self@.len() <= i64::MAX,
        ensures
            1 <= index <= self@.len() ==> r == Ok::<i64, IngestError>(self@[index - 1].id),
            !(1 <= index <= self@.len()) ==> r == Err::<i64, IngestError>(
                IngestError::MissingPerson { index },
            ),
    {
        if 1 <= index && index <= self.rows.len() as i64 {
            Ok(self.rows[(index - 1) as usize].id)
        } else {
            Err(IngestError::MissingPerson { index })
        }
    }
}

} // verus!
