use flashcards::pages::{page_bounds, study_nav, study_selection, PAGE_SIZE};

#[test]
fn page_size_is_fifty() {
    assert_eq!(PAGE_SIZE, 50);
}

#[test]
fn first_page_by_default() {
    let (page, max_page, start, end) = page_bounds(120, None);
    assert_eq!(page, 0);
    assert_eq!(max_page, 2);
    assert_eq!(start, 0);
    assert_eq!(end, 50);
}

#[test]
fn page_request_clamped_to_last() {
    let (page, max_page, start, end) = page_bounds(120, Some(5));
    assert_eq!(page, 2);
    assert_eq!(max_page, 2);
    assert_eq!(start, 100);
    assert_eq!(end, 120);
}

#[test]
fn short_list_single_page() {
    let (page, max_page, start, end) = page_bounds(3, Some(1));
    assert_eq!(page, 0);
    assert_eq!(max_page, 0);
    assert_eq!(start, 0);
    assert_eq!(end, 3);
}

#[test]
fn nav_at_edges() {
    assert_eq!(study_nav(0, 3), (None, Some(1)));
    assert_eq!(study_nav(1, 3), (Some(0), Some(2)));
    assert_eq!(study_nav(2, 3), (Some(1), None));
    assert_eq!(study_nav(0, 1), (None, None));
}

#[test]
fn study_requested_in_range() {
    assert_eq!(study_selection(3, Some(1)), Some((1, Some(0), Some(2))));
}

#[test]
fn study_requested_out_of_range() {
    assert_eq!(study_selection(3, Some(3)), None);
    assert_eq!(study_selection(3, Some(10)), None);
}

#[test]
fn study_random_in_range() {
    for _ in 0..20 {
        let (id, _previous, _next) = study_selection(4, None).expect("a card is chosen");
        assert!(id < 4);
    }
}
