use kartograph::coordinate::Coordinate;
use kartograph::geometry::Geometry;
use kartograph::grid::Grid;
use kartograph::objective::Score;
use kartograph::roster::{GameObjectives, ObjectiveKind};
use kartograph::season::{advance_season, next_phase, GameState, Season, SeasonMarker, SeasonType};
use kartograph::terrain::Cultivation;

fn c(x: i32, y: i32) -> Coordinate {
    Coordinate::new(x, y)
}

fn empty_board() -> Grid {
    Grid::initialize(&vec![], &vec![])
}

fn put(grid: &mut Grid, x: i32, y: i32, kind: Cultivation) {
    let g = Geometry::new(vec![c(0, 0)]).unwrap();
    assert!(grid.accepts_geometry_at(&g, &c(x, y), false));
    grid.cultivate(&g, &c(x, y), kind);
}

fn score(kind: ObjectiveKind, grid: &Grid) -> usize {
    kind.score(grid).value()
}

#[test]
fn forest_enclosure() {
    let mut grid = empty_board();
    put(&mut grid, 0, 0, Cultivation::Forest);
    assert_eq!(score(ObjectiveKind::DuesterWald, &grid), 0);
    put(&mut grid, 0, 1, Cultivation::Village);
    put(&mut grid, 1, 0, Cultivation::Water);
    assert_eq!(score(ObjectiveKind::DuesterWald, &grid), 1);
}

#[test]
fn mountain_adjacency() {
    let mut grid = Grid::new();
    put(&mut grid, 5, 6, Cultivation::Water);
    put(&mut grid, 4, 5, Cultivation::Farm);
    put(&mut grid, 6, 5, Cultivation::Forest);
    assert_eq!(score(ObjectiveKind::TalDerMagier, &grid), 2);
    put(&mut grid, 5, 4, Cultivation::Water);
    assert_eq!(score(ObjectiveKind::TalDerMagier, &grid), 3);
}

#[test]
fn full_diagonals() {
    let mut grid = empty_board();
    assert_eq!(score(ObjectiveKind::LongRoad, &grid), 0);
    put(&mut grid, 0, 0, Cultivation::Goblin);
    assert_eq!(score(ObjectiveKind::LongRoad, &grid), 3);
    put(&mut grid, 1, 0, Cultivation::Goblin);
    put(&mut grid, 0, 1, Cultivation::Goblin);
    assert_eq!(score(ObjectiveKind::LongRoad, &grid), 6);
}

#[test]
fn large_villages() {
    let mut grid = empty_board();
    for x in 0..5 {
        put(&mut grid, x, 0, Cultivation::Village);
    }
    assert_eq!(score(ObjectiveKind::BastionInTheWilderness, &grid), 0);
    put(&mut grid, 5, 0, Cultivation::Village);
    assert_eq!(score(ObjectiveKind::BastionInTheWilderness, &grid), 8);
}

#[test]
fn isolated_village() {
    let mut grid = Grid::new();
    put(&mut grid, 5, 6, Cultivation::Village);
    put(&mut grid, 5, 7, Cultivation::Village);
    put(&mut grid, 0, 10, Cultivation::Village);
    assert_eq!(score(ObjectiveKind::Metropole, &grid), 1);
    let mut alone = Grid::new();
    assert_eq!(score(ObjectiveKind::Metropole, &alone), 0);
    put(&mut alone, 5, 4, Cultivation::Village);
    assert_eq!(score(ObjectiveKind::Metropole, &alone), 0);
}

#[test]
fn ruin_bonus() {
    let mut grid = Grid::new();
    put(&mut grid, 1, 2, Cultivation::Farm);
    assert_eq!(score(ObjectiveKind::GoldenCorn, &grid), 3);
    put(&mut grid, 1, 3, Cultivation::Water);
    assert_eq!(score(ObjectiveKind::GoldenCorn, &grid), 4);
}

#[test]
fn full_rows_and_columns() {
    let mut grid = empty_board();
    for x in 0..11 {
        put(&mut grid, x, 0, Cultivation::Farm);
    }
    assert_eq!(score(ObjectiveKind::Grenzland, &grid), 6);
    for y in 1..11 {
        put(&mut grid, 0, y, Cultivation::Farm);
    }
    assert_eq!(score(ObjectiveKind::Grenzland, &grid), 12);
}

#[test]
fn forest_lines() {
    let mut grid = empty_board();
    put(&mut grid, 3, 4, Cultivation::Forest);
    assert_eq!(score(ObjectiveKind::Gruenflaeche, &grid), 2);
    put(&mut grid, 3, 5, Cultivation::Forest);
    assert_eq!(score(ObjectiveKind::Gruenflaeche, &grid), 3);
}

#[test]
fn coastal_areas() {
    let mut grid = empty_board();
    put(&mut grid, 5, 5, Cultivation::Water);
    assert_eq!(score(ObjectiveKind::AusgedehnteStraende, &grid), 3);
    put(&mut grid, 0, 5, Cultivation::Farm);
    assert_eq!(score(ObjectiveKind::AusgedehnteStraende, &grid), 3);
    put(&mut grid, 5, 6, Cultivation::Farm);
    assert_eq!(score(ObjectiveKind::AusgedehnteStraende, &grid), 0);
}

#[test]
fn second_village() {
    let mut grid = empty_board();
    assert_eq!(score(ObjectiveKind::SchildDesReichs, &grid), 0);
    put(&mut grid, 0, 0, Cultivation::Village);
    put(&mut grid, 1, 0, Cultivation::Village);
    put(&mut grid, 2, 0, Cultivation::Village);
    assert_eq!(score(ObjectiveKind::SchildDesReichs, &grid), 0);
    put(&mut grid, 5, 5, Cultivation::Village);
    put(&mut grid, 5, 6, Cultivation::Village);
    assert_eq!(score(ObjectiveKind::SchildDesReichs, &grid), 2);
}

#[test]
fn diverse_villages() {
    let mut grid = empty_board();
    put(&mut grid, 5, 5, Cultivation::Village);
    put(&mut grid, 5, 6, Cultivation::Water);
    put(&mut grid, 5, 4, Cultivation::Farm);
    assert_eq!(score(ObjectiveKind::SchillerndeEbene, &grid), 0);
    put(&mut grid, 6, 5, Cultivation::Forest);
    assert_eq!(score(ObjectiveKind::SchillerndeEbene, &grid), 3);
}

#[test]
fn largest_square_on_empty_and_full_boards() {
    let grid = empty_board();
    assert_eq!(score(ObjectiveKind::UnzugaenglicheBaronie, &grid), 0);
    let mut everything = Vec::new();
    for x in 0..11 {
        for y in 0..11 {
            everything.push(c(x, y));
        }
    }
    let full = Grid::initialize(&vec![], &everything);
    assert_eq!(score(ObjectiveKind::UnzugaenglicheBaronie, &full), 11);
}

#[test]
fn largest_square() {
    let mut grid = empty_board();
    put(&mut grid, 3, 3, Cultivation::Farm);
    assert_eq!(score(ObjectiveKind::UnzugaenglicheBaronie, &grid), 1);
    put(&mut grid, 4, 3, Cultivation::Water);
    put(&mut grid, 3, 4, Cultivation::Village);
    assert_eq!(score(ObjectiveKind::UnzugaenglicheBaronie, &grid), 1);
    put(&mut grid, 4, 4, Cultivation::Goblin);
    assert_eq!(score(ObjectiveKind::UnzugaenglicheBaronie, &grid), 2);
    let standard = Grid::new();
    assert_eq!(score(ObjectiveKind::UnzugaenglicheBaronie, &standard), 1);
}

#[test]
fn enclosed_free_cells() {
    let mut grid = empty_board();
    put(&mut grid, 5, 6, Cultivation::Farm);
    put(&mut grid, 5, 4, Cultivation::Farm);
    put(&mut grid, 6, 5, Cultivation::Farm);
    assert_eq!(score(ObjectiveKind::DieKessel, &grid), 0);
    put(&mut grid, 4, 5, Cultivation::Farm);
    assert_eq!(score(ObjectiveKind::DieKessel, &grid), 1);
    put(&mut grid, 1, 0, Cultivation::Farm);
    put(&mut grid, 0, 1, Cultivation::Farm);
    assert_eq!(score(ObjectiveKind::DieKessel, &grid), 2);
}

#[test]
fn forest_border() {
    let mut grid = empty_board();
    put(&mut grid, 0, 0, Cultivation::Forest);
    assert_eq!(score(ObjectiveKind::Schildwald, &grid), 1);
    put(&mut grid, 0, 5, Cultivation::Forest);
    put(&mut grid, 10, 10, Cultivation::Forest);
    put(&mut grid, 5, 5, Cultivation::Forest);
    assert_eq!(score(ObjectiveKind::Schildwald, &grid), 3);
}

#[test]
fn irrigation() {
    let mut grid = empty_board();
    put(&mut grid, 2, 2, Cultivation::Farm);
    put(&mut grid, 2, 3, Cultivation::Water);
    assert_eq!(score(ObjectiveKind::Bewaesserungskanal, &grid), 2);
    put(&mut grid, 2, 4, Cultivation::Farm);
    assert_eq!(score(ObjectiveKind::Bewaesserungskanal, &grid), 3);
}

#[test]
fn linked_mountains() {
    let grid = Grid::initialize(&vec![], &vec![c(2, 2), c(2, 4), c(8, 8)]);
    let mut grid = grid;
    put(&mut grid, 2, 3, Cultivation::Forest);
    assert_eq!(score(ObjectiveKind::PfadDesWaldes, &grid), 6);
    put(&mut grid, 8, 7, Cultivation::Forest);
    assert_eq!(score(ObjectiveKind::PfadDesWaldes, &grid), 6);
    put(&mut grid, 3, 3, Cultivation::Forest);
    put(&mut grid, 4, 3, Cultivation::Forest);
    put(&mut grid, 5, 3, Cultivation::Forest);
    put(&mut grid, 6, 3, Cultivation::Forest);
    put(&mut grid, 7, 3, Cultivation::Forest);
    put(&mut grid, 7, 4, Cultivation::Forest);
    put(&mut grid, 7, 5, Cultivation::Forest);
    put(&mut grid, 7, 6, Cultivation::Forest);
    put(&mut grid, 7, 7, Cultivation::Forest);
    assert_eq!(score(ObjectiveKind::PfadDesWaldes, &grid), 9);
}

#[test]
fn season_objectives_share_a_slot() {
    let objectives = GameObjectives::from_roster([
        ObjectiveKind::LongRoad,
        ObjectiveKind::Metropole,
        ObjectiveKind::DieKessel,
        ObjectiveKind::Schildwald,
    ]);
    assert_eq!(objectives.objectives_for_season(&SeasonType::Spring), (ObjectiveKind::LongRoad, ObjectiveKind::Metropole));
    assert_eq!(objectives.objectives_for_season(&SeasonType::Autumn), (ObjectiveKind::DieKessel, ObjectiveKind::Schildwald));
    assert_eq!(objectives.objectives_for_season(&SeasonType::Winter), (ObjectiveKind::Schildwald, ObjectiveKind::LongRoad));
}

#[test]
fn season_scores_are_kept() {
    let mut objectives = GameObjectives::from_roster([
        ObjectiveKind::Schildwald,
        ObjectiveKind::Gruenflaeche,
        ObjectiveKind::DieKessel,
        ObjectiveKind::LongRoad,
    ]);
    let mut grid = empty_board();
    put(&mut grid, 0, 0, Cultivation::Forest);
    objectives.add_coin(vec![c(2, 2)]);
    assert_eq!(objectives.objectives_for_season(&SeasonType::Spring).0.name(), "Schildwald");
    let spring = objectives.score_season(&SeasonType::Spring, &grid);
    assert_eq!(spring.a, ("Schildwald", Score(1)));
    assert_eq!(spring.b, ("Gruenflaeche", Score(2)));
    assert_eq!(spring.coin_count, 1);
    put(&mut grid, 10, 10, Cultivation::Forest);
    let again = objectives.score_season(&SeasonType::Spring, &grid);
    assert_eq!(again, spring);
    let summer = objectives.score_season(&SeasonType::Summer, &grid);
    assert_eq!(summer.a.1, Score(4));
}

#[test]
fn random_roster_is_four_distinct_rules() {
    let objectives = GameObjectives::new_random();
    let (a, b) = objectives.objectives_for_season(&SeasonType::Spring);
    let (c2, d) = objectives.objectives_for_season(&SeasonType::Autumn);
    let all = [a, b, c2, d];
    for i in 0..4 {
        for j in 0..4 {
            if i != j {
                assert_ne!(all[i], all[j]);
            }
        }
    }
    assert_eq!(ObjectiveKind::catalog().len(), 16);
}

#[test]
fn names_and_points() {
    assert_eq!(ObjectiveKind::Metropole.name(), "Metropole");
    assert_eq!(ObjectiveKind::GoldenCorn.asset_id(), "corn");
    let mut s = Score::default();
    s.add_points(3);
    s.add_points(4);
    assert_eq!(s.value(), 7);
}

#[test]
fn seasons_advance_to_the_end() {
    let mut season = Season::default();
    assert_eq!(*season.season_type(), SeasonType::Spring);
    assert!(season.has_time_left());
    season.pass_time(7);
    assert!(season.has_time_left());
    season.pass_time(1);
    assert!(!season.has_time_left());
    assert_eq!(advance_season(&mut season), GameState::SeasonState);
    assert_eq!(season.season_type, SeasonType::Summer);
    assert_eq!(season.passed_time, 0);
    assert_eq!(advance_season(&mut season), GameState::SeasonState);
    assert_eq!(SeasonType::Autumn.time(), 7);
    assert_eq!(advance_season(&mut season), GameState::SeasonState);
    assert_eq!(season.season_type, SeasonType::Winter);
    assert!(season.next().is_none());
    season.pass_time(2);
    assert_eq!(advance_season(&mut season), GameState::End);
    assert_eq!(season.season_type, SeasonType::Winter);
    assert_eq!(season.passed_time, 2);
    assert_eq!(SeasonType::Winter.marker(), SeasonMarker::Winter);
    assert_eq!(SeasonType::Winter.time(), 6);
}

#[test]
fn phase_after_a_card() {
    let mut season = Season::default();
    season.pass_time(5);
    assert_eq!(next_phase(&season), GameState::SeasonState);
    season.pass_time(3);
    assert_eq!(next_phase(&season), GameState::SeasonScoreState);
}

#[test]
fn draw_takes_the_last_four() {
    let shuffled = ObjectiveKind::catalog();
    let drawn = GameObjectives::from_shuffled(shuffled).unwrap();
    assert_eq!(
        drawn.objectives_for_season(&SeasonType::Spring),
        (ObjectiveKind::BastionInTheWilderness, ObjectiveKind::Bewaesserungskanal)
    );
    assert_eq!(
        drawn.objectives_for_season(&SeasonType::Autumn),
        (ObjectiveKind::UnzugaenglicheBaronie, ObjectiveKind::DieKessel)
    );
    assert!(GameObjectives::from_shuffled(vec![ObjectiveKind::Metropole; 3]).is_none());
}

#[test]
fn default_roster_is_a_fresh_game() {
    let mut objectives = GameObjectives::default();
    let grid = empty_board();
    let (a, b) = objectives.objectives_for_season(&SeasonType::Summer);
    let result = objectives.score_season(&SeasonType::Summer, &grid);
    assert_eq!(result.coin_count, 0);
    assert_eq!(result.a.0, a.name());
    assert_eq!(result.b.0, b.name());
    assert_ne!(a, b);
}
