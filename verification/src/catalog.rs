//! Value types of the external catalog and the pure logic around it:
//! pagination planning for a paginated discovery call, and a resolved
//! works-by-contributor table that stands in for the catalog when the
//! ingestion logic is run and checked on plain values.

use vstd::prelude::*;

verus! {

/// One page of a paginated work-discovery response.
#[derive(Debug)]
pub struct DiscoverMoviesResponse {
    pub total_pages: i64,
    pub results: Vec<DiscoverMoviesResult>,
}

/// A discovered work: external id and display title.
#[derive(Clone, Debug)]
pub struct DiscoverMoviesResult {
    pub id: i64,
    pub title: String,
}

/// A work's credits.
#[derive(Debug)]
pub struct MovieCreditsResponse {
    pub cast: Vec<MovieCastMember>,
}

/// A credited contributor: external id and display name.
#[derive(Clone, Debug)]
pub struct MovieCastMember {
    pub id: i64,
    pub name: String,
}

/// The external ids of a discovery result list, in order.
pub fn work_ids(results: &Vec<DiscoverMoviesResult>) -> (r: Vec<i64>)
    ensures
        r@ == results@.map_values(|m: DiscoverMoviesResult| m.id),
{
    let mut r: Vec<i64> = Vec::new();
    let mut k: usize = 0;
    while k < results.len()
        invariant
            0 <= k <= results.len(),
            r@ == results@.take(k as int).map_values(|m: DiscoverMoviesResult| m.id),
        decreases results.len() - k,
    {
        r.push(results[k].id);
        proof {
            assert(results@.take(k as int + 1) =~= results@.take(k as int).push(
                results@[k as int],
            ));
            assert(results@.take(k as int + 1).map_values(|m: DiscoverMoviesResult| m.id)
                =~= results@.take(k as int).map_values(|m: DiscoverMoviesResult| m.id).push(
                results@[k as int].id,
            ));
        }
        k = k + 1;
    }
    proof {
        assert(results@.take(results@.len() as int) =~= results@);
    }
    r
}

/// Plans the follow-up fetches of a paginated discovery call. Page 1
/// is fetched first and reports `total_pages`; the planner then
/// yields pages 2, 3, ..., `total_pages` in order, so the full
/// result list is concatenated before any edge is derived.
#[derive(Clone, Copy, Debug, PartialEq, Eq, Structural)]
pub struct Paginator {
    pub next_page: i64,
    pub total_pages: i64,
}

impl Paginator {
    pub fn new(total_pages: i64) -> (r: Self)
        ensures
            r.next_page == 2,
            r.total_pages == total_pages,
    {
        Paginator { next_page: 2, total_pages }
    }

    /// The next page still to fetch, or `None` once every page of
    /// the response has been planned.
    pub fn next_page_to_fetch(&mut self) -> (r: Option<i64>)
        requires
            old(self).total_pages < i64::MAX,
        ensures
            final(self).total_pages == old(self).total_pages,
            old(self).next_page <= old(self).total_pages ==> r == Some(old(self).next_page)
                && final(self).next_page == old(self).next_page + 1,
            old(self).next_page > old(self).total_pages ==> r == None::<i64>
                && final(self).next_page == old(self).next_page,
    {
        if self.next_page <= self.total_pages {
            let p = self.next_page;
            self.next_page = p + 1;
            Some(p)
        } else {
            None
        }
    }
}

/// An entry of the resolved catalog: one contributor's complete,
/// pagination-resolved work id list.
#[derive(Clone, Debug)]
pub struct CatalogEntry {
    pub person: i64,
    pub works: Vec<i64>,
}

/// The first entry of `entries` for `person`, if any.
pub open spec fn spec_lookup(entries: Seq<(i64, Seq<i64>)>, person: i64) -> Option<Seq<i64>>
    decreases entries.len(),
{
    if entries.len() == 0 {
        None
    } else if entries[0].0 == person {
        Some(entries[0].1)
    } else {
        spec_lookup(entries.drop_first(), person)
    }
}

/// A resolved works-by-contributor table: what the external catalog
/// answers, held as plain values so the ingestion logic can be run
/// and proved against it. A contributor absent from the table stands
/// for a failed catalog call.
pub struct Catalog {
    entries: Vec<CatalogEntry>,
}

impl View for Catalog {
    type V = Seq<(i64, Seq<i64>)>;

    closed spec fn view(&self) -> Seq<(i64, Seq<i64>)> {
        self.entries@.map_values(|e: CatalogEntry| (e.person, e.works@))
    }
}

impl Catalog {
    pub fn from_entries(entries: Vec<CatalogEntry>) -> (r: Self)
        ensures
            r@ == entries@.map_values(|e: CatalogEntry| (e.person, e.works@)),
    {
        Catalog { entries }
    }

    /// Position of the first entry for `person`, or `None` when the
    /// catalog has no answer for that contributor.
    pub fn lookup_index(&self, person: i64) -> (r: Option<usize>)
        ensures
            match r {
                Some(ix) => ix < self@.len() && self@[ix as int].0 == person && spec_lookup(
                    self@,
                    person,
                ) == Some(self@[ix as int].1),
                None => spec_lookup(self@, person) == None::<Seq<i64>>,
            },
    {
        let mut k: usize = 0;
        proof {
            assert(self@.skip(0) =~= self@);
        }
        while k < self.entries.len()
            invariant
                0 <= k <= self.entries.len(),
                self@.len() == self.entries@.len(),
                spec_lookup(self@, person) == spec_lookup(self@.skip(k as int), person),
            decreases self.entries.len() - k,
        {
            proof {
                lemma_lookup_step(self@, person, k as int);
            }
            if self.entries[k].person == person {
                return Some(k);
            }
            k = k + 1;
        }
        None
    }

    /// The work list of the entry at position `ix`.
    pub fn works_at(&self, ix: usize) -> (r: &Vec<i64>)
        requires
            ix < self@.len(),
        ensures
            r@ == self@[ix as int].1,
    {
        &self.entries[ix].works
    }
}

/// Scanning past a non-matching entry does not change what the
/// lookup finds.
proof fn lemma_lookup_step(entries: Seq<(i64, Seq<i64>)>, person: i64, k: int)
    requires
        0 <= k < entries.len(),
    ensures
        entries[k].0 == person ==> spec_lookup(entries.skip(k), person) == Some(entries[k].1),
        entries[k].0 != person ==> spec_lookup(entries.skip(k), person) == spec_lookup(
            entries.skip(k + 1),
            person,
        ),
{
    assert(entries.skip(k)[0] == entries[k]);
    assert(entries.skip(k).drop_first() =~= entries.skip(k + 1));
}

} // verus!
