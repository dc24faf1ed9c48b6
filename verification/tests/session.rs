use create_rust_app::session::{PaginationParams, UserSession, UserSessionChangeset, Window, MAX_PAGE_SIZE};

#[test]
fn the_window_of_a_page() {
    let p = PaginationParams { page: 3, page_size: 20 };
    assert_eq!(p.window(), Some(Window { limit: 20, offset: 60 }));
    assert_eq!(PaginationParams { page: 0, page_size: 20 }.window(), Some(Window { limit: 20, offset: 0 }));
}

#[test]
fn the_offset_is_computed_with_the_capped_size() {
    assert_eq!(MAX_PAGE_SIZE, 100);
    let p = PaginationParams { page: 2, page_size: 250 };
    assert_eq!(p.window(), Some(Window { limit: 250, offset: 200 }));
    let at = PaginationParams { page: 2, page_size: 100 };
    assert_eq!(at.window(), Some(Window { limit: 100, offset: 200 }));
}

#[test]
fn negative_values_multiply_as_they_are() {
    assert_eq!(PaginationParams { page: -2, page_size: 10 }.window(), Some(Window { limit: 10, offset: -20 }));
    assert_eq!(PaginationParams { page: 2, page_size: -10 }.window(), Some(Window { limit: -10, offset: -20 }));
}

#[test]
fn an_offset_that_does_not_fit_gives_no_window() {
    assert_eq!(PaginationParams { page: i64::MAX, page_size: 2 }.window(), None);
    assert_eq!(PaginationParams { page: i64::MIN, page_size: 100 }.window(), None);
    assert_eq!(PaginationParams { page: 2, page_size: i64::MIN }.window(), None);
    assert_eq!(
        PaginationParams { page: i64::MAX, page_size: 1 }.window(),
        Some(Window { limit: 1, offset: i64::MAX })
    );
    assert_eq!(
        PaginationParams { page: i64::MAX / 100, page_size: 1000 }.window(),
        Some(Window { limit: 1000, offset: i64::MAX / 100 * 100 })
    );
}

#[test]
fn sessions_are_plain_values() {
    let changes = UserSessionChangeset { user_id: 7, refresh_token: "t".to_string(), device: None };
    let session = UserSession {
        id: 1,
        user_id: changes.user_id,
        refresh_token: changes.refresh_token.clone(),
        device: changes.device.clone(),
        created_at: 10,
        updated_at: 11,
    };
    assert_eq!(session.clone(), session);
    assert_eq!(session.user_id, 7);
    assert_eq!(changes.clone(), changes);
}
