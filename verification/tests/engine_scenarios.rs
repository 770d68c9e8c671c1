use holder_scan::engine::{process_page, StepOutcome};
use holder_scan::page::{parse_page, ParsedPage};
use holder_scan::codec::render_holder_list;
use holder_scan::state::ScanState;

#[test]
fn two_page_run() {
    let mut state = ScanState::default();

    let page1 = parse_page(
        r#"{"owners":[{"ownerAddress":"0xAAA","tokenBalances":[]},{"ownerAddress":"0xBBB","tokenBalances":[]}],"pageKey":"k1"}"#,
    );
    assert!(matches!(page1.page, ParsedPage::Owners(_)));
    let o1 = process_page(&mut state, &page1, 7);
    assert!(matches!(o1, StepOutcome::Continue));
    assert_eq!(state.last_page_key, Some(b"k1".to_vec()));
    assert_eq!(state.total_holders, 2);

    let page2 = parse_page(
        r#"{"owners":[{"ownerAddress":"0xAAA","tokenBalances":[]}],"pageKey":null}"#,
    );
    let o2 = process_page(&mut state, &page2, 8);
    assert!(matches!(o2, StepOutcome::Done));
    assert_eq!(state.total_holders, 2);
    assert_eq!(state.holders, vec![b"0xAAA".to_vec(), b"0xBBB".to_vec()]);
    assert_eq!(state.last_page_key, None);
    assert_eq!(render_holder_list(&state), b"0xAAA\n0xBBB\n".to_vec());
}

#[test]
fn flat_list_shape() {
    let mut state = ScanState::default();
    let page = parse_page(r#"{"result":["0xCCC","0xAAA"],"pageKey":null}"#);
    assert!(matches!(page.page, ParsedPage::FlatResult(_)));
    let o = process_page(&mut state, &page, 1);
    assert!(matches!(o, StepOutcome::Done));
    assert_eq!(render_holder_list(&state), b"0xAAA\n0xCCC\n".to_vec());
}

#[test]
fn empty_page_mid_run() {
    let mut state = ScanState::default();
    let page1 = parse_page(r#"{"owners":[{"ownerAddress":"0xAAA"}],"pageKey":"k1"}"#);
    let o1 = process_page(&mut state, &page1, 1);
    assert!(matches!(o1, StepOutcome::Continue));

    // A page with neither recognized field stops the run without touching
    // the accumulated state or the cursor.
    let page2 = parse_page(r#"{"somethingElse":true}"#);
    let o2 = process_page(&mut state, &page2, 2);
    assert!(matches!(o2, StepOutcome::Aborted));
    assert_eq!(state.last_page_key, Some(b"k1".to_vec()));
    assert_eq!(state.holders, vec![b"0xAAA".to_vec()]);
    assert_eq!(state.last_save_time, 1);
}

#[test]
fn unparseable_body_aborts() {
    let mut state = ScanState::default();
    let page = parse_page("this is not json");
    assert!(matches!(page.page, ParsedPage::Unrecognized));
    let o = process_page(&mut state, &page, 1);
    assert!(matches!(o, StepOutcome::Aborted));
    assert_eq!(state.total_holders, 0);
}

#[test]
fn owners_shape_with_empty_list_aborts() {
    let mut state = ScanState::default();
    let page = parse_page(r#"{"owners":[],"pageKey":"k2"}"#);
    let o = process_page(&mut state, &page, 1);
    assert!(matches!(o, StepOutcome::Aborted));
    assert_eq!(state.last_page_key, None);
}

#[test]
fn stops_after_one_merge_without_cursor() {
    let mut state = ScanState::default();
    let page = parse_page(r#"{"owners":[{"ownerAddress":"0xEEE"}]}"#);
    let o = process_page(&mut state, &page, 5);
    assert!(matches!(o, StepOutcome::Done));
    assert_eq!(state.total_holders, 1);
    assert_eq!(state.last_page_key, None);
    assert_eq!(state.last_save_time, 5);
}

#[test]
fn merge_is_idempotent_across_repeated_pages() {
    let mut state = ScanState::default();
    let body = r#"{"owners":[{"ownerAddress":"0xAAA"},{"ownerAddress":"0xBBB"}],"pageKey":"k1"}"#;
    let o1 = process_page(&mut state, &parse_page(body), 1);
    assert!(matches!(o1, StepOutcome::Continue));
    assert_eq!(state.total_holders, 2);

    // Re-processing the same page after a restart changes nothing.
    let o2 = process_page(&mut state, &parse_page(body), 2);
    assert!(matches!(o2, StepOutcome::Continue));
    assert_eq!(state.total_holders, 2);
    assert_eq!(state.holders, vec![b"0xAAA".to_vec(), b"0xBBB".to_vec()]);
}

#[test]
fn owner_records_without_address_are_passed_over() {
    let page = parse_page(r#"{"owners":[{"ownerAddress":"0xAAA"},{"balance":3}],"pageKey":null}"#);
    match page.page {
        ParsedPage::Owners(addrs) => assert_eq!(addrs, vec![b"0xAAA".to_vec()]),
        _ => panic!("expected the owner-record shape"),
    }
}

#[test]
fn empty_cursor_string_ends_the_run() {
    // An absent and an empty page key alike signal that no further pages
    // follow: the page is still merged, nothing is stored as a cursor.
    let mut state = ScanState::default();
    let page = parse_page(r#"{"result":["0xAAA"],"pageKey":""}"#);
    let o = process_page(&mut state, &page, 1);
    assert!(matches!(o, StepOutcome::Done));
    assert_eq!(state.last_page_key, None);
    assert_eq!(state.total_holders, 1);
}

#[test]
fn clock_is_available() {
    // The timestamp is informational only; the library promises nothing of
    // its value beyond fitting the state's counter.
    let _ = holder_scan::clock::current_timestamp();
}
