use minesweeper::app::Difficulty;
use minesweeper::state::{PersistentState, StatItem, Stats};

#[test]
fn record_loss_counts_game_but_not_win_duration() {
    let mut stats = Stats::default();
    stats.record(Difficulty::Expert, false, 120);
    let item = stats.item(Difficulty::Expert);
    assert_eq!(item.total, 1);
    assert_eq!(item.wins, 0);
    assert_eq!(item.win_duration, 0);
    assert!(item.best_time.is_none());
}

#[test]
fn record_win_accumulates_win_duration_and_best_time() {
    let mut stats = Stats::default();
    stats.record(Difficulty::Expert, true, 120);
    stats.record(Difficulty::Expert, true, 90);
    let item = stats.item(Difficulty::Expert);
    assert_eq!(item.total, 2);
    assert_eq!(item.wins, 2);
    assert_eq!(item.win_duration, 210);
    assert_eq!(item.best_time, Some(90));
}

#[test]
fn record_mixed_outcomes_only_accumulates_win_durations() {
    let mut stats = Stats::default();
    stats.record(Difficulty::Expert, true, 100);
    stats.record(Difficulty::Expert, false, 999);
    stats.record(Difficulty::Expert, true, 50);
    let item = stats.item(Difficulty::Expert);
    assert_eq!(item.total, 3);
    assert_eq!(item.wins, 2);
    assert_eq!(item.win_duration, 150);
}

#[test]
fn slower_win_keeps_best_time() {
    let mut stats = Stats::default();
    stats.record(Difficulty::Beginner, true, 30);
    stats.record(Difficulty::Beginner, true, 45);
    assert_eq!(stats.item(Difficulty::Beginner).best_time, Some(30));
}

#[test]
fn custom_boards_share_one_history() {
    let mut stats = Stats::default();
    stats.record(Difficulty::Custom { width: 5, height: 5, mines: 3 }, true, 10);
    stats.record(Difficulty::Custom { width: 20, height: 20, mines: 60 }, false, 10);
    let item = stats.item(Difficulty::Custom { width: 1, height: 2, mines: 0 });
    assert_eq!(item.total, 2);
    assert_eq!(item.wins, 1);
    assert_eq!(stats.beginner.total, 0);
    assert_eq!(stats.intermediate.total, 0);
    assert_eq!(stats.expert.total, 0);
}

#[test]
fn item_mut_updates_the_chosen_history() {
    let mut stats = Stats::default();
    stats.item_mut(Difficulty::Intermediate).wins = 7;
    assert_eq!(stats.intermediate.wins, 7);
    assert_eq!(stats.expert.wins, 0);
}

#[test]
fn default_state_is_intermediate_with_empty_history() {
    let s = PersistentState::default();
    assert_eq!(s.theme, 0);
    assert_eq!(s.difficulty, Difficulty::Intermediate);
    let item: StatItem = s.stats.beginner;
    assert_eq!(item.total, 0);
    assert_eq!(item.wins, 0);
    assert_eq!(item.win_duration, 0);
    assert!(item.best_time.is_none());
}
