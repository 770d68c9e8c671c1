use holder_scan::codec::{parse_state, render_holder_list, render_state};
use holder_scan::state::ScanState;

fn sample_state() -> ScanState {
    let mut state = ScanState::default();
    state.insert_holder(b"0xCCC".to_vec());
    state.insert_holder(b"0xAAA".to_vec());
    state.insert_holder(b"0xBBB".to_vec());
    state.last_save_time = 1_700_000_000;
    state.last_page_key = Some(b"cursor-17".to_vec());
    state
}

#[test]
fn state_round_trip() {
    let state = sample_state();
    let text = render_state(&state);
    let loaded = parse_state(&text).expect("a rendered state parses back");
    assert_eq!(loaded.last_processed_block, 0);
    assert_eq!(loaded.last_save_time, 1_700_000_000);
    assert_eq!(loaded.total_holders, 3);
    assert_eq!(loaded.holders, state.holders);
    assert_eq!(loaded.last_page_key, Some(b"cursor-17".to_vec()));
}

#[test]
fn round_trip_without_cursor_and_with_extremes() {
    let mut state = ScanState::default();
    state.last_save_time = u64::MAX;
    state.insert_holder(Vec::new());
    state.insert_holder(b"an address with spaces".to_vec());
    let text = render_state(&state);
    let loaded = parse_state(&text).expect("a rendered state parses back");
    assert_eq!(loaded.last_save_time, u64::MAX);
    assert_eq!(loaded.last_page_key, None);
    assert_eq!(loaded.total_holders, 2);
    assert_eq!(loaded.holders, state.holders);
}

#[test]
fn round_trip_with_empty_cursor() {
    let mut state = ScanState::default();
    state.last_page_key = Some(Vec::new());
    let text = render_state(&state);
    let loaded = parse_state(&text).expect("a rendered state parses back");
    assert_eq!(loaded.last_page_key, Some(Vec::new()));
}

#[test]
fn state_artifact_shape_is_stable() {
    let state = sample_state();
    let text = render_state(&state);
    assert_eq!(
        text,
        b"b 0\nt 1700000000\nn 3\nc cursor-17\nh 0xAAA\nh 0xBBB\nh 0xCCC\n".to_vec()
    );
}

// Policy on corrupt persisted state: a text that is not exactly the rendering
// of a well-formed state parses to nothing, and the scanning binary treats
// that as fatal rather than silently falling back to an empty state, so real
// progress is never discarded unnoticed.
#[test]
fn malformed_states_are_rejected() {
    // Not the artifact shape at all.
    assert!(parse_state(b"garbage").is_none());
    // Missing the final line feed.
    assert!(parse_state(b"b 0\nt 0\nn 0\nc").is_none());
    // The cached total disagrees with the holder lines.
    assert!(parse_state(b"b 0\nt 0\nn 2\nc\nh a\n").is_none());
    // Holder lines out of order.
    assert!(parse_state(b"b 0\nt 0\nn 2\nc\nh b\nh a\n").is_none());
    // A duplicated holder line.
    assert!(parse_state(b"b 0\nt 0\nn 2\nc\nh a\nh a\n").is_none());
    // A counter with a leading zero is not a rendering.
    assert!(parse_state(b"b 00\nt 0\nn 0\nc\n").is_none());
    // An unknown key.
    assert!(parse_state(b"x 0\nt 0\nn 0\nc\n").is_none());
    // The empty text has no records.
    assert!(parse_state(b"").is_none());
}

#[test]
fn holder_list_is_sorted_and_exact() {
    let mut state = ScanState::default();
    state.insert_holder(b"0xB".to_vec());
    state.insert_holder(b"0xA".to_vec());
    state.insert_holder(b"0xB".to_vec());
    state.insert_holder(b"0xAB".to_vec());
    assert_eq!(state.total_holders, 3);
    assert_eq!(render_holder_list(&state), b"0xA\n0xAB\n0xB\n".to_vec());
}

#[test]
fn repeated_insertion_never_grows_the_set() {
    let mut state = ScanState::default();
    assert!(state.insert_holder(b"0xAAA".to_vec()));
    assert!(!state.insert_holder(b"0xAAA".to_vec()));
    assert!(!state.insert_holder(b"0xAAA".to_vec()));
    assert_eq!(state.total_holders, 1);
    assert_eq!(state.holders, vec![b"0xAAA".to_vec()]);
}

#[test]
fn fresh_state_renders_and_reloads() {
    let state = ScanState::default();
    let text = render_state(&state);
    assert_eq!(text, b"b 0\nt 0\nn 0\nc\n".to_vec());
    let loaded = parse_state(&text).expect("a rendered state parses back");
    assert_eq!(loaded.total_holders, 0);
    assert_eq!(loaded.holders.len(), 0);
    assert_eq!(loaded.last_page_key, None);
    assert_eq!(render_holder_list(&loaded), Vec::<u8>::new());
}
