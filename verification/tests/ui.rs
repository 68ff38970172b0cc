use minesweeper::state::StatItem;
use minesweeper::ui::{avg_str, best_str, centered, fmt_dur, is_neighbor};

#[test]
fn avg_win_time_shows_dash_when_no_wins() {
    let s = StatItem {
        wins: 0,
        total: 3,
        win_duration: 0,
        best_time: None,
    };
    assert_eq!(avg_str(&s), "--");
}

#[test]
fn avg_win_time_averages_recorded_win_durations() {
    let s = StatItem {
        wins: 2,
        total: 5,
        win_duration: 150,
        best_time: Some(60),
    };
    assert_eq!(avg_str(&s), "1m15s");
}

#[test]
fn durations_under_a_minute_show_seconds() {
    assert_eq!(fmt_dur(0), "0s");
    assert_eq!(fmt_dur(7), "7s");
    assert_eq!(fmt_dur(59), "59s");
}

#[test]
fn durations_from_a_minute_pad_seconds() {
    assert_eq!(fmt_dur(60), "1m00s");
    assert_eq!(fmt_dur(65), "1m05s");
    assert_eq!(fmt_dur(3599), "59m59s");
    assert_eq!(fmt_dur(7384), "123m04s");
}

#[test]
fn best_time_text() {
    assert_eq!(best_str(None), "--");
    assert_eq!(best_str(Some(42)), "42s");
    assert_eq!(best_str(Some(90)), "1m30s");
}

#[test]
fn neighbours_touch_but_differ() {
    assert!(is_neighbor(3, 3, 2, 2));
    assert!(is_neighbor(3, 3, 4, 3));
    assert!(is_neighbor(0, 0, 1, 1));
    assert!(!is_neighbor(3, 3, 3, 3));
    assert!(!is_neighbor(3, 3, 5, 3));
    assert!(!is_neighbor(0, 0, 0, 2));
}

#[test]
fn centered_box_fits_the_area() {
    assert_eq!(centered(0, 0, 60, 20, 46, 10), (7, 5, 46, 10));
    assert_eq!(centered(2, 1, 10, 4, 20, 2), (2, 2, 10, 2));
}
