//! Seasons and their time budgets.
use vstd::prelude::*;

verus! {

/// The four seasons of a game, in order.
#[derive(Debug, Clone, Copy, PartialEq, Eq, Structural)]
pub enum SeasonType {
    Spring,
    Summer,
    Autumn,
    Winter,
}

/// Marks the display of a season.
#[derive(Debug, Clone, Copy, PartialEq, Eq, Structural)]
pub enum SeasonMarker {
    Spring,
    Summer,
    Autumn,
    Winter,
}

/// Where a game stands.
#[derive(Debug, Clone, Copy, PartialEq, Eq, Structural, Hash)]
pub enum GameState {
    Loading,
    SeasonState,
    SeasonScoreState,
    End,
}

pub open spec fn time_budget(s: SeasonType) -> int {
    match s {
        SeasonType::Spring => 8,
        SeasonType::Summer => 8,
        SeasonType::Autumn => 7,
        SeasonType::Winter => 6,
    }
}

pub open spec fn successor(s: SeasonType) -> Option<SeasonType> {
    match s {
        SeasonType::Spring => Some(SeasonType::Summer),
        SeasonType::Summer => Some(SeasonType::Autumn),
        SeasonType::Autumn => Some(SeasonType::Winter),
        SeasonType::Winter => None,
    }
}

/// Position of a season in the year, from 0.
pub open spec fn season_index(s: SeasonType) -> int {
    match s {
        SeasonType::Spring => 0,
        SeasonType::Summer => 1,
        SeasonType::Autumn => 2,
        SeasonType::Winter => 3,
    }
}

impl SeasonType {
    /// The time units that the season lasts.
    pub fn time(&self) -> (r: i32)
        ensures
            r == time_budget(*self),
    {
        match self {
            SeasonType::Spring => 8,
            SeasonType::Summer => 8,
            SeasonType::Autumn => 7,
            SeasonType::Winter => 6,
        }
    }

    /// The following season; none after winter.
    pub fn next(&self) -> (r: Option<SeasonType>)
        ensures
            r == successor(*self),
    {
        match self {
            SeasonType::Spring => Some(SeasonType::Summer),
            SeasonType::Summer => Some(SeasonType::Autumn),
            SeasonType::Autumn => Some(SeasonType::Winter),
            SeasonType::Winter => None,
        }
    }

    pub fn index(&self) -> (r: usize)
        ensures
            r == season_index(*self),
    {
        match self {
            SeasonType::Spring => 0,
            SeasonType::Summer => 1,
            SeasonType::Autumn => 2,
            SeasonType::Winter => 3,
        }
    }

    pub fn marker(&self) -> (r: SeasonMarker)
        ensures
            r == match *self {
                SeasonType::Spring => SeasonMarker::Spring,
                SeasonType::Summer => SeasonMarker::Summer,
                SeasonType::Autumn => SeasonMarker::Autumn,
                SeasonType::Winter => SeasonMarker::Winter,
            },
    {
        match self {
            SeasonType::Spring => SeasonMarker::Spring,
            SeasonType::Summer => SeasonMarker::Summer,
            SeasonType::Autumn => SeasonMarker::Autumn,
            SeasonType::Winter => SeasonMarker::Winter,
        }
    }
}

impl Default for SeasonType {
    fn default() -> (r: SeasonType)
        ensures
            r == SeasonType::Spring,
    {
        SeasonType::Spring
    }
}

/// The current season and the time spent in it.
#[derive(Debug, Clone, Copy, PartialEq, Eq, Structural)]
pub struct Season {
    pub season_type: SeasonType,
    pub passed_time: i32,
}

impl Default for Season {
    /// Spring, with no time spent.
    fn default() -> (r: Season)
        ensures
            r.season_type == SeasonType::Spring,
            r.passed_time == 0,
    {
        Season { season_type: SeasonType::Spring, passed_time: 0 }
    }
}

impl Season {
    /// Spends `time` units of the season.
    pub fn pass_time(&mut self, time: i32)
        requires
            i32::MIN <= old(self).passed_time + time <= i32::MAX,
        ensures
            final(self).passed_time == old(self).passed_time + time,
            final(self).season_type == old(self).season_type,
    {
        self.passed_time = self.passed_time + time;
    }

    /// The following season with no time spent; none after winter.
    pub fn next(&self) -> (r: Option<Season>)
        ensures
            match successor(self.season_type) {
                Some(t) => r == Some(Season { season_type: t, passed_time: 0 }),
                None => r.is_none(),
            },
    {
        match self.season_type.next() {
            Some(season_type) => Some(Season { season_type, passed_time: 0 }),
            None => None,
        }
    }

    /// Whether time spent is still below the season's budget.
    pub fn has_time_left(&self) -> (r: bool)
        ensures
            r == (self.passed_time < time_budget(self.season_type)),
    {
        self.passed_time < self.season_type.time()
    }

    pub fn season_type(&self) -> (r: &SeasonType)
        ensures
            *r == self.season_type,
    {
        &self.season_type
    }
}

/// What follows a played card: another turn while the season has time left,
/// its scoring once the time is spent.
pub fn next_phase(season: &Season) -> (r: GameState)
    ensures
        r == if season.passed_time < time_budget(season.season_type) {
            GameState::SeasonState
        } else {
            GameState::SeasonScoreState
        },
{
    if season.has_time_left() {
        GameState::SeasonState
    } else {
        GameState::SeasonScoreState
    }
}

/// Moves on to the next season; after winter the game ends and the season
/// stays as it is.
pub fn advance_season(season: &mut Season) -> (r: GameState)
    ensures
        match successor(old(season).season_type) {
            Some(t) => r == GameState::SeasonState && *final(season) == (Season { season_type: t, passed_time: 0 }),
            None => r == GameState::End && *final(season) == *old(season),
        },
{
    match season.next() {
        Some(next_season) => {
            *season = next_season;
            GameState::SeasonState
        },
        None => GameState::End,
    }
}

} // verus!
