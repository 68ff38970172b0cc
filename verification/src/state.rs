//! Persistent state: theme choice, last Difficulty, and score history.
use vstd::prelude::*;

use crate::app::Difficulty;

verus! {

/// Score history of one Difficulty.
#[derive(Clone, Copy, Debug)]
pub struct StatItem {
    pub wins: u32,
    pub total: u32,
    pub win_duration: u64,
    pub best_time: Option<u64>,
}

impl Default for StatItem {
    fn default() -> (s: Self)
        ensures
            s.wins == 0,
            s.total == 0,
            s.win_duration == 0,
            s.best_time is None,
    {
        StatItem { wins: 0, total: 0, win_duration: 0, best_time: None }
    }
}

/// The history of a Difficulty never played.
pub open spec fn empty_item() -> StatItem {
    StatItem { wins: 0, total: 0, win_duration: 0, best_time: None }
}

/// `i` after one more game lasting `seconds`: every game counts, and a win also
/// adds to the wins and their duration and may set a new best time.
pub open spec fn recorded(i: StatItem, won: bool, seconds: u64) -> StatItem {
    if won {
        StatItem {
            wins: (i.wins + 1) as u32,
            total: (i.total + 1) as u32,
            win_duration: (i.win_duration + seconds) as u64,
            best_time: Some(
                match i.best_time {
                    Some(b) => if b <= seconds {
                        b
                    } else {
                        seconds
                    },
                    None => seconds,
                },
            ),
        }
    } else {
        StatItem { total: (i.total + 1) as u32, ..i }
    }
}

/// One more game of `seconds` fits the counters of `i`.
pub open spec fn can_record(i: StatItem, won: bool, seconds: u64) -> bool {
    &&& i.total < u32::MAX
    &&& won ==> i.wins < u32::MAX && i.win_duration + seconds <= u64::MAX
}

/// Score history per Difficulty.
#[derive(Clone, Copy, Debug)]
pub struct Stats {
    pub beginner: StatItem,
    pub intermediate: StatItem,
    pub expert: StatItem,
    pub custom: StatItem,
}

impl Default for Stats {
    fn default() -> (s: Self)
        ensures
            s.beginner == empty_item(),
            s.intermediate == s.beginner,
            s.expert == s.beginner,
            s.custom == s.beginner,
    {
        Stats {
            beginner: StatItem::default(),
            intermediate: StatItem::default(),
            expert: StatItem::default(),
            custom: StatItem::default(),
        }
    }
}

impl Stats {
    /// The history kept for `d`; every custom board shares one.
    pub open spec fn item_of(self, d: Difficulty) -> StatItem {
        match d {
            Difficulty::Beginner => self.beginner,
            Difficulty::Intermediate => self.intermediate,
            Difficulty::Expert => self.expert,
            Difficulty::Custom { .. } => self.custom,
        }
    }

    /// These stats with the history of `d` replaced by `i`.
    pub open spec fn with_item(self, d: Difficulty, i: StatItem) -> Stats {
        match d {
            Difficulty::Beginner => Stats { beginner: i, ..self },
            Difficulty::Intermediate => Stats { intermediate: i, ..self },
            Difficulty::Expert => Stats { expert: i, ..self },
            Difficulty::Custom { .. } => Stats { custom: i, ..self },
        }
    }

    /// The history kept for `d`.
    pub fn item(&self, d: Difficulty) -> (r: &StatItem)
        ensures
            *r == self.item_of(d),
    {
        match d {
            Difficulty::Beginner => &self.beginner,
            Difficulty::Intermediate => &self.intermediate,
            Difficulty::Expert => &self.expert,
            Difficulty::Custom { .. } => &self.custom,
        }
    }

    /// The history kept for `d`, to update in place.
    pub fn item_mut(&mut self, d: Difficulty) -> (r: &mut StatItem)
        ensures
            *r == old(self).item_of(d),
            *final(self) == old(self).with_item(d, *final(r)),
    {
        match d {
            Difficulty::Beginner => &mut self.beginner,
            Difficulty::Intermediate => &mut self.intermediate,
            Difficulty::Expert => &mut self.expert,
            Difficulty::Custom { .. } => &mut self.custom,
        }
    }

    /// Record the outcome of a finished game.
    pub fn record(&mut self, d: Difficulty, won: bool, seconds: u64)
        requires
            can_record(old(self).item_of(d), won, seconds),
        ensures
            *final(self) == old(self).with_item(d, recorded(old(self).item_of(d), won, seconds)),
    {
        let item = self.item_mut(d);
        item.total = item.total + 1;
        if won {
            item.wins = item.wins + 1;
            item.win_duration = item.win_duration + seconds;
            item.best_time = Some(
                match item.best_time {
                    Some(b) => if b <= seconds {
                        b
                    } else {
                        seconds
                    },
                    None => seconds,
                },
            );
        }
    }
}

/// What is kept between runs: theme choice, last Difficulty, and score history.
pub struct PersistentState {
    pub theme: usize,
    pub difficulty: Difficulty,
    pub stats: Stats,
}

impl Default for PersistentState {
    fn default() -> (s: Self)
        ensures
            s.theme == 0,
            s.difficulty == Difficulty::Intermediate,
            s.stats.beginner == empty_item(),
            s.stats.intermediate == s.stats.beginner,
            s.stats.expert == s.stats.beginner,
            s.stats.custom == s.stats.beginner,
    {
        Self { theme: 0, difficulty: Difficulty::Intermediate, stats: Stats::default() }
    }
}

/// A history makes sense: no more wins than games, and a best time exactly when
/// there is a win.
pub open spec fn item_consistent(i: StatItem) -> bool {
    &&& i.wins <= i.total
    &&& (i.best_time is Some) == (i.wins > 0)
}

/// Recording a game keeps a history consistent, and the best time is never longer
/// than any win recorded.
pub proof fn lemma_record_consistent(i: StatItem, won: bool, seconds: u64)
    requires
        item_consistent(i),
        can_record(i, won, seconds),
    ensures
        item_consistent(recorded(i, won, seconds)),
        won ==> recorded(i, won, seconds).best_time->0 <= seconds,
        won && i.best_time is Some ==> recorded(i, won, seconds).best_time->0 <= i.best_time->0,
{
}

/// Which saved state to start from: the one at the current path; else the legacy
/// one, which is then to be migrated to the current path; else the defaults.
/// Returns the state and whether to migrate.
pub fn choose_state(current: Option<PersistentState>, legacy: Option<PersistentState>) -> (r: (
    PersistentState,
    bool,
))
    ensures
        current is Some ==> r.0 == current->0 && !r.1,
        current is None && legacy is Some ==> r.0 == legacy->0 && r.1,
        current is None && legacy is None ==> !r.1 && r.0.theme == 0 && r.0.difficulty
            == Difficulty::Intermediate && r.0.stats.beginner == empty_item()
            && r.0.stats.intermediate == empty_item() && r.0.stats.expert == empty_item()
            && r.0.stats.custom == empty_item(),
{
    match current {
        Some(state) => (state, false),
        None => match legacy {
            Some(state) => (state, true),
            None => (PersistentState::default(), false),
        },
    }
}

} // verus!
