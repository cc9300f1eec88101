use sbbarch::site::{page_link, to_query_numbers, to_query_terms, MISSING_ALT};
use sbbarch::{CloneData, MdonMediaType, PageCursor, Pagination, RobotImage};

#[test]
fn pagination_small_and_missing() {
    assert_eq!(Pagination::try_new(0, 0), None);
    assert_eq!(Pagination::try_new(3, 3), None);
    let p = Pagination::try_new(0, 1).unwrap();
    assert_eq!((p.min_range_page, p.max_range_page), (0, 0));
    assert_eq!((p.prev_page, p.next_page, p.first_page, p.last_page), (None, None, None, None));
    let p = Pagination::try_new(4, 9).unwrap();
    assert_eq!((p.min_range_page, p.max_range_page), (0, 8));
    assert_eq!((p.prev_page, p.next_page), (Some(3), Some(5)));
}

#[test]
fn pagination_large() {
    let p = Pagination::try_new(5, 20).unwrap();
    assert_eq!((p.min_range_page, p.max_range_page), (2, 8));
    assert_eq!((p.first_page, p.last_page), (Some(0), Some(19)));
    assert_eq!((p.prev_page, p.next_page), (Some(4), Some(6)));

    let p = Pagination::try_new(0, 20).unwrap();
    assert_eq!((p.min_range_page, p.max_range_page), (0, 7));
    assert_eq!((p.first_page, p.last_page), (None, Some(19)));

    let p = Pagination::try_new(19, 20).unwrap();
    assert_eq!((p.min_range_page, p.max_range_page), (12, 19));
    assert_eq!((p.first_page, p.last_page), (Some(0), None));
    assert_eq!((p.prev_page, p.next_page), (Some(18), None));
}

#[test]
fn query_terms_strip_bot() {
    let terms = to_query_terms("Teabot  Mischiefbots 558 !!! bot Caf\u{e9}").unwrap();
    assert_eq!(terms, vec!["tea", "teabot", "mischief", "mischiefbots", "558", "bot", "cafe"]);
    assert_eq!(to_query_terms("!!! ..."), None);
    assert_eq!(to_query_terms(""), None);
}

#[test]
fn query_numbers_keep_numbers() {
    let terms: Vec<String> = ["tea", "558", "-3", "x1", "+4"].iter().map(|s| s.to_string()).collect();
    assert_eq!(to_query_numbers(&terms), vec![558, -3, 4]);
}

#[test]
fn links_and_images() {
    assert_eq!(page_link(12, "teabot"), "/robots/12/teabot");
    assert_eq!(page_link(-3, "x"), "/robots/-3/x");
    let img = RobotImage { file_name: Some("a.png".into()), orig_alt: Some("orig".into()), custom_alt: Some("custom".into()) };
    assert_eq!(img.resource_url().as_deref(), Some("/robot_images/a.png"));
    assert_eq!(img.alt(), "custom");
    let img = RobotImage { file_name: None, orig_alt: Some("orig".into()), custom_alt: None };
    assert_eq!(img.resource_url(), None);
    assert_eq!(img.alt(), "orig");
    let img = RobotImage { file_name: None, orig_alt: None, custom_alt: None };
    assert_eq!(img.alt(), MISSING_ALT);
}

#[test]
fn media_types_by_exact_name() {
    assert_eq!(MdonMediaType::from_name("image"), MdonMediaType::Image);
    assert_eq!(MdonMediaType::from_name("gifv"), MdonMediaType::Gifv);
    assert_eq!(MdonMediaType::from_name("unkown"), MdonMediaType::Unkown);
    assert_eq!(MdonMediaType::from_name("Image"), MdonMediaType::Other("Image".into()));
    assert_eq!(MdonMediaType::from_name("unknown"), MdonMediaType::Other("unknown".into()));
}

#[test]
fn page_cursor_counts_pages() {
    let mut c = PageCursor::new(None, Some(2));
    assert!(c.start_page());
    assert!(c.finish_page(Some("100")));
    assert_eq!(c.max_id.as_deref(), Some("100"));
    assert!(c.start_page());
    assert!(c.finish_page(Some("50")));
    assert!(!c.start_page());
    assert_eq!(c.pages_left, Some(0));

    let mut c = PageCursor::new(Some("9".into()), None);
    assert!(c.start_page());
    assert!(!c.finish_page(None));
    assert_eq!(c.max_id.as_deref(), Some("9"));
}

#[test]
fn clone_data_holds_value() {
    let d = CloneData::new(vec![1, 2]);
    assert_eq!(d.inner, vec![1, 2]);
}
