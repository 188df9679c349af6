use movie_explorer::catalog::{
    work_ids, Catalog, CatalogEntry, DiscoverMoviesResponse, DiscoverMoviesResult,
    MovieCastMember, MovieCreditsResponse, Paginator,
};

#[test]
fn work_ids_projects_ids_in_order() {
    let results = vec![
        DiscoverMoviesResult { id: 5, title: "five".to_string() },
        DiscoverMoviesResult { id: 3, title: "three".to_string() },
        DiscoverMoviesResult { id: 5, title: "five again".to_string() },
    ];
    assert_eq!(work_ids(&results), vec![5, 3, 5]);
    assert_eq!(work_ids(&Vec::new()), Vec::<i64>::new());
}

#[test]
fn response_pages_feed_the_planner_and_the_projection() {
    let page = DiscoverMoviesResponse {
        total_pages: 3,
        results: vec![
            DiscoverMoviesResult { id: 8, title: "eight".to_string() },
            DiscoverMoviesResult { id: 9, title: "nine".to_string() },
        ],
    };
    assert_eq!(work_ids(&page.results), vec![8, 9]);
    let mut pages = Paginator::new(page.total_pages);
    assert_eq!(pages.next_page_to_fetch(), Some(2));
    assert_eq!(pages.next_page_to_fetch(), Some(3));
    assert_eq!(pages.next_page_to_fetch(), None);

    let credits = MovieCreditsResponse {
        cast: vec![MovieCastMember { id: 101, name: "someone".to_string() }],
    };
    assert_eq!(credits.cast.len(), 1);
    assert_eq!(credits.cast[0].id, 101);
}

#[test]
fn paginator_yields_every_follow_up_page_in_order() {
    let mut pages = Paginator::new(5);
    let mut seen = Vec::new();
    while let Some(p) = pages.next_page_to_fetch() {
        seen.push(p);
    }
    assert_eq!(seen, vec![2, 3, 4, 5]);
}

#[test]
fn single_page_response_needs_no_follow_up() {
    let mut pages = Paginator::new(1);
    assert_eq!(pages.next_page_to_fetch(), None);
}

#[test]
fn lookup_finds_the_first_entry_for_a_person() {
    let catalog = Catalog::from_entries(vec![
        CatalogEntry { person: 101, works: vec![1] },
        CatalogEntry { person: 102, works: vec![2, 3] },
        CatalogEntry { person: 101, works: vec![9] },
    ]);
    let ix = catalog.lookup_index(101).unwrap();
    assert_eq!(ix, 0);
    assert_eq!(catalog.works_at(ix).clone(), vec![1]);
    assert_eq!(catalog.lookup_index(103), None);
}
