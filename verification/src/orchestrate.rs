//! The ingestion orchestrator: size the contributor universe,
//! partition it, run one worker per range, and report the first
//! failure only after every worker has finished — nothing is rolled
//! back, so a re-run is idempotent.

use vstd::prelude::*;
use crate::catalog::Catalog;
use crate::error::IngestError;
use crate::partition::{
    index_covered, lemma_partition_properties, partition, range_end, range_start,
};
use crate::store::{pair_present, Edge, EdgeTable, PeopleTable, Person};
use crate::worker;
use crate::worker::covers_pair;

verus! {

/// What a whole ingestion produces: the store's rows afterwards, the
/// first worker failure if any, and every progress signal in
/// emission order.
pub struct IngestOutcome {
    pub rows: Seq<Edge>,
    pub first_failure: Option<IngestError>,
    pub signals: Seq<i64>,
}

/// The meaning of running the workers of ranges `k, k+1, ...,
/// task_count - 1` in order over a shared store: each walks its own
/// range; a failed worker keeps its writes and does not stop its
/// siblings; the failure reported is the first one.
pub open spec fn spec_ingest(
    people: Seq<Person>,
    catalog: Seq<(i64, Seq<i64>)>,
    rows: Seq<Edge>,
    total: int,
    task_count: int,
    k: int,
) -> IngestOutcome
    decreases task_count - k,
{
    if k >= task_count {
        IngestOutcome { rows, first_failure: None, signals: Seq::empty() }
    } else {
        let o = worker::spec_run(
            people,
            catalog,
            rows,
            range_start(total, task_count, k),
            range_end(total, task_count, k),
        );
        let rest = spec_ingest(people, catalog, o.rows, total, task_count, k + 1);
        IngestOutcome {
            rows: rest.rows,
            first_failure: match o.result {
                Ok(_) => rest.first_failure,
                Err(e) => Some(e),
            },
            signals: o.signals + rest.signals,
        }
    }
}

/// Whether index `x` falls inside one of the ranges `k, ...,
/// task_count - 1` of the partition.
pub open spec fn in_tail_ranges(total: int, task_count: int, k: int, x: int) -> bool {
    exists|j: int|
        k <= j < task_count && #[trigger] range_start(total, task_count, j) <= x < range_end(
            total,
            task_count,
            j,
        )
}

/// What a clean run of the workers of ranges `k, ...` leaves in the
/// store, pair for pair.
proof fn lemma_ingest_pairs_from(
    people: Seq<Person>,
    catalog: Seq<(i64, Seq<i64>)>,
    rows: Seq<Edge>,
    total: int,
    task_count: int,
    k: int,
    a: i64,
    b: i64,
)
    requires
        spec_ingest(people, catalog, rows, total, task_count, k).first_failure
            == None::<IngestError>,
    ensures
        pair_present(spec_ingest(people, catalog, rows, total, task_count, k).rows, a, b) <==> (
        pair_present(rows, a, b) || exists|x: int|
            #[trigger] in_tail_ranges(total, task_count, k, x) && covers_pair(
                people,
                catalog,
                x,
                a,
                b,
            )),
    decreases task_count - k,
{
    if k >= task_count {
        assert forall|x: int| !in_tail_ranges(total, task_count, k, x) by {}
    } else {
        let o = worker::spec_run(
            people,
            catalog,
            rows,
            range_start(total, task_count, k),
            range_end(total, task_count, k),
        );
        let rest = spec_ingest(people, catalog, o.rows, total, task_count, k + 1);
        match o.result {
            Ok(_) => {},
            Err(e) => {
                assert(spec_ingest(people, catalog, rows, total, task_count, k).first_failure
                    == Some(e));
            },
        }
        assert(o.result is Ok);
        lemma_ingest_pairs_from(people, catalog, o.rows, total, task_count, k + 1, a, b);
        worker::lemma_run_pairs(
            people,
            catalog,
            rows,
            range_start(total, task_count, k),
            range_end(total, task_count, k),
            a,
            b,
        );
        if pair_present(rest.rows, a, b) && !pair_present(rows, a, b) {
            if pair_present(o.rows, a, b) {
                let x = choose|x: int|
                    range_start(total, task_count, k) <= x < range_end(total, task_count, k)
                        && #[trigger] covers_pair(people, catalog, x, a, b);
                assert(in_tail_ranges(total, task_count, k, x));
            } else {
                let x = choose|x: int|
                    #[trigger] in_tail_ranges(total, task_count, k + 1, x) && covers_pair(
                        people,
                        catalog,
                        x,
                        a,
                        b,
                    );
                let j = choose|j: int|
                    k + 1 <= j < task_count && #[trigger] range_start(total, task_count, j) <= x
                        < range_end(total, task_count, j);
                assert(in_tail_ranges(total, task_count, k, x));
            }
        }
        if exists|x: int|
            #[trigger] in_tail_ranges(total, task_count, k, x) && covers_pair(
                people,
                catalog,
                x,
                a,
                b,
            ) {
            let x = choose|x: int|
                #[trigger] in_tail_ranges(total, task_count, k, x) && covers_pair(
                    people,
                    catalog,
                    x,
                    a,
                    b,
                );
            let j = choose|j: int|
                k <= j < task_count && #[trigger] range_start(total, task_count, j) <= x
                    < range_end(total, task_count, j);
            if j == k {
                assert(pair_present(o.rows, a, b));
            } else {
                assert(in_tail_ranges(total, task_count, k + 1, x));
            }
        }
    }
}

/// What a clean ingestion leaves in the store, pair for pair: the
/// pairs already there, plus exactly the ordered pairs that some
/// contributor of the universe `[1, total]` co-occurs on — the
/// Cartesian-product union over every partition, with no duplicate
/// pairs, whatever order the workers' writes interleaved in.
pub proof fn lemma_ingest_pairs(
    people: Seq<Person>,
    catalog: Seq<(i64, Seq<i64>)>,
    rows: Seq<Edge>,
    task_count: int,
    a: i64,
    b: i64,
)
    requires
        task_count >= 1,
        spec_ingest(people, catalog, rows, people.len() as int, task_count, 0).first_failure
            == None::<IngestError>,
    ensures
        pair_present(
            spec_ingest(people, catalog, rows, people.len() as int, task_count, 0).rows,
            a,
            b,
        ) <==> (pair_present(rows, a, b) || exists|x: int|
            1 <= x <= people.len() && #[trigger] covers_pair(people, catalog, x, a, b)),
{
    let total = people.len() as int;
    lemma_ingest_pairs_from(people, catalog, rows, total, task_count, 0, a, b);
    lemma_partition_properties(total, task_count);
    assert forall|x: int|
        #[trigger] in_tail_ranges(total, task_count, 0, x) implies 1 <= x <= total by {
        let j = choose|j: int|
            0 <= j < task_count && #[trigger] range_start(total, task_count, j) <= x < range_end(
                total,
                task_count,
                j,
            );
    }
    assert forall|x: int| 1 <= x <= total implies #[trigger] in_tail_ranges(
        total,
        task_count,
        0,
        x,
    ) by {
        assert(index_covered(total, task_count, x));
    }
    let once = spec_ingest(people, catalog, rows, total, task_count, 0);
    if pair_present(once.rows, a, b) && !pair_present(rows, a, b) {
        let x = choose|x: int|
            #[trigger] in_tail_ranges(total, task_count, 0, x) && covers_pair(
                people,
                catalog,
                x,
                a,
                b,
            );
        assert(1 <= x <= total && covers_pair(people, catalog, x, a, b));
    }
    if exists|x: int| 1 <= x <= people.len() && #[trigger] covers_pair(people, catalog, x, a, b) {
        let x = choose|x: int|
            1 <= x <= people.len() && #[trigger] covers_pair(people, catalog, x, a, b);
        assert(in_tail_ranges(total, task_count, 0, x) && covers_pair(people, catalog, x, a, b));
    }
}

/// Ingest the whole universe: the contributor count comes from the
/// people table, the partitioner divides it into `task_count`
/// ranges, one worker runs per range, and the first failure is
/// reported only after all workers have finished. Edges written by
/// failed or surviving workers stay in the store.
pub fn ingest(
    people: &PeopleTable,
    catalog: &Catalog,
    task_count: i64,
    store: &mut EdgeTable,
    signals: &mut Vec<i64>,
) -> (r: Result<(), IngestError>)
    requires
        old(store).wf(),
        1 <= task_count,
        people@.len() < i64::MAX,
    ensures
        ({
            let o = spec_ingest(
                people@,
                catalog@,
                old(store)@,
                people@.len() as int,
                task_count as int,
                0,
            );
            &&& final(store)@ == o.rows
            &&& final(store).wf()
            &&& final(signals)@ == old(signals)@ + o.signals
            &&& r == match o.first_failure {
                None => Ok::<(), IngestError>(()),
                Some(e) => Err::<(), IngestError>(e),
            }
        }),
{
    let ghost total = people@.len() as int;
    let ghost target = spec_ingest(people@, catalog@, old(store)@, total, task_count as int, 0);
    let total_count = people.count();
    let ranges = partition(total_count, task_count);
    let mut first: Option<IngestError> = None;
    let mut k: usize = 0;
    let ghost mut sig_acc: Seq<i64> = Seq::empty();
    proof {
        assert(old(signals)@ + sig_acc =~= old(signals)@);
    }
    while k < ranges.len()
        invariant
            0 <= k <= ranges.len(),
            ranges@.len() == task_count,
            1 <= task_count,
            people@.len() < i64::MAX,
            total == people@.len() as int,
            forall|j: int|
                0 <= j < task_count ==> (#[trigger] ranges@[j]).start == range_start(
                    total,
                    task_count as int,
                    j,
                ),
            forall|j: int|
                0 <= j < task_count ==> (#[trigger] ranges@[j]).end == range_end(
                    total,
                    task_count as int,
                    j,
                ),
            store.wf(),
            signals@ == old(signals)@ + sig_acc,
            target == spec_ingest(people@, catalog@, old(store)@, total, task_count as int, 0),
            ({
                let cur = spec_ingest(people@, catalog@, store@, total, task_count as int, k as int);
                &&& target.rows == cur.rows
                &&& target.first_failure == (match first {
                    Some(e) => Some(e),
                    None => cur.first_failure,
                })
                &&& target.signals == sig_acc + cur.signals
            }),
        decreases ranges.len() - k,
    {
        let ghost cur = spec_ingest(people@, catalog@, store@, total, task_count as int, k as int);
        let ghost o = worker::spec_run(
            people@,
            catalog@,
            store@,
            range_start(total, task_count as int, k as int),
            range_end(total, task_count as int, k as int),
        );
        let res = worker::run(people, catalog, ranges[k], store, signals);
        proof {
            let rest = spec_ingest(people@, catalog@, store@, total, task_count as int, k as int + 1);
            assert(cur.signals == o.signals + rest.signals);
            sig_acc = sig_acc + o.signals;
            assert(signals@ =~= old(signals)@ + sig_acc);
            assert(target.signals =~= sig_acc + rest.signals);
        }
        match res {
            Ok(_) => {},
            Err(e) => {
                if first.is_none() {
                    first = Some(e);
                }
            },
        }
        k = k + 1;
    }
    proof {
        let cur = spec_ingest(people@, catalog@, store@, total, task_count as int, task_count as int);
        assert(cur.rows == store@);
        assert(target.signals =~= sig_acc);
    }
    match first {
        None => Ok(()),
        Some(e) => Err(e),
    }
}

} // verus!
