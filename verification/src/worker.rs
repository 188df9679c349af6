//! One worker's walk over its partition: each contributor index is
//! translated to an external id, the contributor's works are looked
//! up, the all-pairs edge set is derived and written idempotently,
//! and one progress signal is emitted — strictly in increasing index
//! order, and only after the full work list is available.

use vstd::prelude::*;
use crate::catalog::{spec_lookup, Catalog};
use crate::derive::{derive_edges, spec_pair_edges};
use crate::error::IngestError;
use crate::partition::IndexRange;
use crate::store::{pair_present, spec_insert_edges, Edge, EdgeTable, PeopleTable, Person};

verus! {

/// What a worker run produces: the store's rows afterwards, the
/// worker's outcome, and the progress signals it emitted, in order.
pub struct RunOutcome {
    pub rows: Seq<Edge>,
    pub result: Result<(), IngestError>,
    pub signals: Seq<i64>,
}

/// The meaning of one worker walking indices `[lo, hi)`: for each
/// index in increasing order, the contributor row is resolved (a
/// missing row is a fatal consistency failure), the works come from
/// the catalog (no answer is a fatal external failure), the derived
/// edge set is folded into the store idempotently, and the
/// contributor's external id is emitted as a signal. The first
/// failure stops the walk; rows already written stay.
pub open spec fn spec_run(
    people: Seq<Person>,
    catalog: Seq<(i64, Seq<i64>)>,
    rows: Seq<Edge>,
    lo: int,
    hi: int,
) -> RunOutcome
    decreases hi - lo,
{
    if lo >= hi {
        RunOutcome { rows, result: Ok(()), signals: Seq::empty() }
    } else if !(1 <= lo && lo <= people.len()) {
        RunOutcome {
            rows,
            result: Err(IngestError::MissingPerson { index: lo as i64 }),
            signals: Seq::empty(),
        }
    } else {
        let pid = people[lo - 1].id;
        match spec_lookup(catalog, pid) {
            None => RunOutcome {
                rows,
                result: Err(IngestError::CatalogFailure { person: pid }),
                signals: Seq::empty(),
            },
            Some(works) => {
                let rest = spec_run(
                    people,
                    catalog,
                    spec_insert_edges(rows, spec_pair_edges(works, pid)),
                    lo + 1,
                    hi,
                );
                RunOutcome {
                    rows: rest.rows,
                    result: rest.result,
                    signals: seq![pid] + rest.signals,
                }
            },
        }
    }
}

/// Whether the contributor at dense index `x` co-occurs on the
/// ordered pair `(a, b)`: both works stand in the work list the
/// catalog answers for that contributor.
pub open spec fn covers_pair(
    people: Seq<Person>,
    catalog: Seq<(i64, Seq<i64>)>,
    x: int,
    a: i64,
    b: i64,
) -> bool {
    1 <= x <= people.len() && match spec_lookup(catalog, people[x - 1].id) {
        Some(works) => works.contains(a) && works.contains(b),
        None => false,
    }
}

/// What a clean worker run leaves in the store, pair for pair: the
/// pairs that were already there, plus exactly the ordered pairs
/// some contributor of the range co-occurs on — the Cartesian-product
/// union over the range, deduplicated by the store.
pub proof fn lemma_run_pairs(
    people: Seq<Person>,
    catalog: Seq<(i64, Seq<i64>)>,
    rows: Seq<Edge>,
    lo: int,
    hi: int,
    a: i64,
    b: i64,
)
    requires
        spec_run(people, catalog, rows, lo, hi).result is Ok,
    ensures
        pair_present(spec_run(people, catalog, rows, lo, hi).rows, a, b) <==> (pair_present(
            rows,
            a,
            b,
        ) || exists|x: int| lo <= x < hi && #[trigger] covers_pair(people, catalog, x, a, b)),
    decreases hi - lo,
{
    if lo >= hi {
    } else {
        let pid = people[lo - 1].id;
        let works = spec_lookup(catalog, pid)->Some_0;
        let rows2 = spec_insert_edges(rows, spec_pair_edges(works, pid));
        lemma_run_pairs(people, catalog, rows2, lo + 1, hi, a, b);
        crate::store::lemma_insert_edges_pairs(rows, spec_pair_edges(works, pid), a, b);
        crate::derive::lemma_pair_edges_pairs(works, pid, a, b);
        assert(pair_present(rows2, a, b) <==> (pair_present(rows, a, b) || covers_pair(
            people,
            catalog,
            lo,
            a,
            b,
        )));
        if pair_present(spec_run(people, catalog, rows, lo, hi).rows, a, b) {
            if !pair_present(rows2, a, b) {
                let x = choose|x: int|
                    lo + 1 <= x < hi && #[trigger] covers_pair(people, catalog, x, a, b);
                assert(lo <= x < hi && covers_pair(people, catalog, x, a, b));
            }
        }
    }
}

/// Run one worker over its range. An empty range completes at once
/// as a no-op. Any failure aborts this worker immediately and is
/// surfaced to the caller; edges already written stay in the store.
pub fn run(
    people: &PeopleTable,
    catalog: &Catalog,
    range: IndexRange,
    store: &mut EdgeTable,
    signals: &mut Vec<i64>,
) -> (r: Result<(), IngestError>)
    requires
        old(store).wf(),
        people@.len() <= i64::MAX,
    ensures
        ({
            let o = spec_run(people@, catalog@, old(store)@, range.start as int, range.end as int);
            &&& final(store)@ == o.rows
            &&& final(store).wf()
            &&& r == o.result
            &&& final(signals)@ == old(signals)@ + o.signals
        }),
{
    let ghost target = spec_run(
        people@,
        catalog@,
        old(store)@,
        range.start as int,
        range.end as int,
    );
    if range.start >= range.end {
        proof {
            assert(old(signals)@ + target.signals =~= old(signals)@);
        }
        return Ok(());
    }
    let mut i: i64 = range.start;
    let ghost mut sig_acc: Seq<i64> = Seq::empty();
    proof {
        assert(old(signals)@ + sig_acc =~= old(signals)@);
    }
    while i < range.end
        invariant
            range.start <= i <= range.end,
            people@.len() <= i64::MAX,
            store.wf(),
            signals@ == old(signals)@ + sig_acc,
            target == spec_run(
                people@,
                catalog@,
                old(store)@,
                range.start as int,
                range.end as int,
            ),
            ({
                let cur = spec_run(people@, catalog@, store@, i as int, range.end as int);
                &&& target.rows == cur.rows
                &&& target.result == cur.result
                &&& target.signals == sig_acc + cur.signals
            }),
        decreases range.end - i,
    {
        let ghost cur = spec_run(people@, catalog@, store@, i as int, range.end as int);
        match people.get_tmdb_id(i) {
            Err(e) => {
                proof {
                    assert(cur.result == Err::<(), IngestError>(e));
                    assert(cur.rows == store@);
                    assert(target.signals =~= sig_acc);
                }
                return Err(e);
            },
            Ok(pid) => {
                match catalog.lookup_index(pid) {
                    None => {
                        proof {
                            assert(cur.result == Err::<(), IngestError>(
                                IngestError::CatalogFailure { person: pid },
                            ));
                            assert(cur.rows == store@);
                            assert(target.signals =~= sig_acc);
                        }
                        return Err(IngestError::CatalogFailure { person: pid });
                    },
                    Some(ix) => {
                        let works = catalog.works_at(ix);
                        let es = derive_edges(works, pid);
                        store.insert_bulk(&es);
                        signals.push(pid);
                        proof {
                            let rest = spec_run(
                                people@,
                                catalog@,
                                store@,
                                i as int + 1,
                                range.end as int,
                            );
                            assert(cur.signals == seq![pid] + rest.signals);
                            sig_acc = sig_acc + seq![pid];
                            assert(signals@ =~= old(signals)@ + sig_acc);
                            assert(target.signals =~= sig_acc + rest.signals);
                        }
                        i = i + 1;
                    },
                }
            },
        }
    }
    proof {
        let cur = spec_run(people@, catalog@, store@, i as int, range.end as int);
        assert(cur.rows == store@);
        assert(target.signals =~= sig_acc);
    }
    Ok(())
}

} // verus!
