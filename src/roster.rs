//! The catalog of scoring rules and the four drawn for a game.
use vstd::prelude::*;
use rand::seq::SliceRandom;
use crate::coordinate::Coordinate;
use crate::grid::{Grid, SIZE, CELLS};
use crate::objective::{Score, sum_cells, forest_enclosed_w, mountain_adjacency_w, full_diagonals_upto, count_ranked, large_village, first_isolated, ruin_bonus_w, full_lines_upto, forest_lines_upto, coastal, diverse, largest_square, enclosed_free_w, forest_border_w, irrigation_w, linked_w, score_forest_enclosure, score_mountain_adjacency, score_full_diagonals, score_large_villages, score_isolated_village, score_ruin_bonus, score_full_lines, score_forest_lines, score_coastal, score_second_village, score_diverse_villages, score_largest_square, score_enclosed_free, score_forest_border, score_irrigation, score_linked_mountains};
use crate::ranking::area_ranking;
use crate::season::{SeasonType, season_index};
use crate::terrain::Cultivation;
use crate::util::to_array;

verus! {

/// The scoring rules of the game.
#[derive(Debug, Clone, Copy, PartialEq, Eq, Structural, Hash)]
pub enum ObjectiveKind {
    /// One point per forest cell with no free neighbour.
    DuesterWald,
    /// One point per mountain next to water or farmland, per such neighbour.
    TalDerMagier,
    /// Three points per diagonal (among the first eleven) without a free cell.
    LongRoad,
    /// Eight points per village area of at least six cells.
    BastionInTheWilderness,
    /// The size of the largest village area that touches no mountain.
    Metropole,
    /// Three points per farmed ruin, one per water cell next to a ruin.
    GoldenCorn,
    /// Six points per row and per column without a free cell.
    Grenzland,
    /// One point per row and per column holding a forest.
    Gruenflaeche,
    /// Three points per water area away from the edge touching no farm, and
    /// per farm area away from the edge touching no water.
    AusgedehnteStraende,
    /// The size of the second-ranked village area.
    SchildDesReichs,
    /// Three points per village area next to three kinds of cultivation.
    SchillerndeEbene,
    /// The edge of the largest square of taken cells.
    UnzugaenglicheBaronie,
    /// One point per free cell whose neighbours are all taken.
    DieKessel,
    /// One point per forest cell on the outer ring.
    Schildwald,
    /// One point per farm next to water and per water next to a farm.
    Bewaesserungskanal,
    /// Three points per mountain linked to another one by a forest area.
    PfadDesWaldes,
}

/// What each rule scores on a board.
pub open spec fn objective_score(kind: ObjectiveKind, g: Grid) -> nat {
    let cells = g.cells();
    match kind {
        ObjectiveKind::DuesterWald => sum_cells(cells, forest_enclosed_w(cells)),
        ObjectiveKind::TalDerMagier => sum_cells(cells, mountain_adjacency_w(cells)),
        ObjectiveKind::LongRoad => full_diagonals_upto(cells, SIZE as nat),
        ObjectiveKind::BastionInTheWilderness => 8 * count_ranked(
            area_ranking(g, Cultivation::Village),
            area_ranking(g, Cultivation::Village).len() as int,
            large_village(),
        ),
        ObjectiveKind::Metropole => first_isolated(g, area_ranking(g, Cultivation::Village), 0),
        ObjectiveKind::GoldenCorn => sum_cells(cells, ruin_bonus_w(cells)),
        ObjectiveKind::Grenzland => full_lines_upto(cells, SIZE as nat),
        ObjectiveKind::Gruenflaeche => forest_lines_upto(cells, SIZE as nat),
        ObjectiveKind::AusgedehnteStraende => 3 * count_ranked(
            area_ranking(g, Cultivation::Water),
            area_ranking(g, Cultivation::Water).len() as int,
            coastal(g, Cultivation::Farm),
        ) + 3 * count_ranked(
            area_ranking(g, Cultivation::Farm),
            area_ranking(g, Cultivation::Farm).len() as int,
            coastal(g, Cultivation::Water),
        ),
        ObjectiveKind::SchildDesReichs => if area_ranking(g, Cultivation::Village).len() >= 2 {
            area_ranking(g, Cultivation::Village)[1].1 as nat
        } else {
            0
        },
        ObjectiveKind::SchillerndeEbene => 3 * count_ranked(
            area_ranking(g, Cultivation::Village),
            area_ranking(g, Cultivation::Village).len() as int,
            diverse(g),
        ),
        ObjectiveKind::UnzugaenglicheBaronie => largest_square(cells),
        ObjectiveKind::DieKessel => sum_cells(cells, enclosed_free_w(cells)),
        ObjectiveKind::Schildwald => sum_cells(cells, forest_border_w()),
        ObjectiveKind::Bewaesserungskanal => sum_cells(cells, irrigation_w(cells)),
        ObjectiveKind::PfadDesWaldes => sum_cells(cells, linked_w(g)),
    }
}

/// Every rule, each once.
pub open spec fn catalog_spec() -> Seq<ObjectiveKind> {
    seq![
        ObjectiveKind::PfadDesWaldes,
        ObjectiveKind::Metropole,
        ObjectiveKind::SchildDesReichs,
        ObjectiveKind::AusgedehnteStraende,
        ObjectiveKind::Gruenflaeche,
        ObjectiveKind::Grenzland,
        ObjectiveKind::GoldenCorn,
        ObjectiveKind::TalDerMagier,
        ObjectiveKind::LongRoad,
        ObjectiveKind::DuesterWald,
        ObjectiveKind::SchillerndeEbene,
        ObjectiveKind::Schildwald,
        ObjectiveKind::DieKessel,
        ObjectiveKind::UnzugaenglicheBaronie,
        ObjectiveKind::Bewaesserungskanal,
        ObjectiveKind::BastionInTheWilderness,
    ]
}

/// The display name of each rule.
pub open spec fn name_of(kind: ObjectiveKind) -> Seq<char> {
    match kind {
        ObjectiveKind::DuesterWald => "Duesterwald"@,
        ObjectiveKind::TalDerMagier => "Tal der Magier"@,
        ObjectiveKind::LongRoad => "Die Lange Strasse"@,
        ObjectiveKind::BastionInTheWilderness => "Bastion In The Wilderness"@,
        ObjectiveKind::Metropole => "Metropole"@,
        ObjectiveKind::GoldenCorn => "Goldener Kornspeicher"@,
        ObjectiveKind::Grenzland => "Grenzland"@,
        ObjectiveKind::Gruenflaeche => "Gruenflaeche"@,
        ObjectiveKind::AusgedehnteStraende => "Ausgedehnte Straende"@,
        ObjectiveKind::SchildDesReichs => "SchildDesReichs"@,
        ObjectiveKind::SchillerndeEbene => "Schillernde Ebene"@,
        ObjectiveKind::UnzugaenglicheBaronie => "Unzugaengliche Baronie"@,
        ObjectiveKind::DieKessel => "Die Kessel"@,
        ObjectiveKind::Schildwald => "Schildwald"@,
        ObjectiveKind::Bewaesserungskanal => "Bewaesserungskanal"@,
        ObjectiveKind::PfadDesWaldes => "Pfad des Waldes"@,
    }
}

/// The artwork key of each rule.
pub open spec fn asset_of(kind: ObjectiveKind) -> Seq<char> {
    match kind {
        ObjectiveKind::DuesterWald => "duesterwald"@,
        ObjectiveKind::TalDerMagier => "tal_der_magier"@,
        ObjectiveKind::LongRoad => "long_road"@,
        ObjectiveKind::BastionInTheWilderness => "bastion_in_the_wilderness"@,
        ObjectiveKind::Metropole => "metropole"@,
        ObjectiveKind::GoldenCorn => "corn"@,
        ObjectiveKind::Grenzland => "grenzland"@,
        ObjectiveKind::Gruenflaeche => "gruenflaeche"@,
        ObjectiveKind::AusgedehnteStraende => "ausgedehnte_straende"@,
        ObjectiveKind::SchildDesReichs => "schild_des_reichs"@,
        ObjectiveKind::SchillerndeEbene => "schillernde_ebene"@,
        ObjectiveKind::UnzugaenglicheBaronie => "unzugaengliche_baronie"@,
        ObjectiveKind::DieKessel => "die_kessel"@,
        ObjectiveKind::Schildwald => "schildwald"@,
        ObjectiveKind::Bewaesserungskanal => "bewaesserungskanal"@,
        ObjectiveKind::PfadDesWaldes => "pfad_des_waldes"@,
    }
}

impl ObjectiveKind {
    /// Every rule, each once.
    pub fn catalog() -> (r: Vec<ObjectiveKind>)
        ensures
            r@ == catalog_spec(),
    {
        let r = vec![
            ObjectiveKind::PfadDesWaldes,
            ObjectiveKind::Metropole,
            ObjectiveKind::SchildDesReichs,
            ObjectiveKind::AusgedehnteStraende,
            ObjectiveKind::Gruenflaeche,
            ObjectiveKind::Grenzland,
            ObjectiveKind::GoldenCorn,
            ObjectiveKind::TalDerMagier,
            ObjectiveKind::LongRoad,
            ObjectiveKind::DuesterWald,
            ObjectiveKind::SchillerndeEbene,
            ObjectiveKind::Schildwald,
            ObjectiveKind::DieKessel,
            ObjectiveKind::UnzugaenglicheBaronie,
            ObjectiveKind::Bewaesserungskanal,
            ObjectiveKind::BastionInTheWilderness,
        ];
        assert(r@ =~= catalog_spec());
        r
    }

    /// The rule's display name.
    pub fn name(&self) -> (r: &'static str)
        ensures
            r@ == name_of(*self),
    {
        match self {
            ObjectiveKind::DuesterWald => "Duesterwald",
            ObjectiveKind::TalDerMagier => "Tal der Magier",
            ObjectiveKind::LongRoad => "Die Lange Strasse",
            ObjectiveKind::BastionInTheWilderness => "Bastion In The Wilderness",
            ObjectiveKind::Metropole => "Metropole",
            ObjectiveKind::GoldenCorn => "Goldener Kornspeicher",
            ObjectiveKind::Grenzland => "Grenzland",
            ObjectiveKind::Gruenflaeche => "Gruenflaeche",
            ObjectiveKind::AusgedehnteStraende => "Ausgedehnte Straende",
            ObjectiveKind::SchildDesReichs => "SchildDesReichs",
            ObjectiveKind::SchillerndeEbene => "Schillernde Ebene",
            ObjectiveKind::UnzugaenglicheBaronie => "Unzugaengliche Baronie",
            ObjectiveKind::DieKessel => "Die Kessel",
            ObjectiveKind::Schildwald => "Schildwald",
            ObjectiveKind::Bewaesserungskanal => "Bewaesserungskanal",
            ObjectiveKind::PfadDesWaldes => "Pfad des Waldes",
        }
    }

    /// Key of the rule's artwork.
    pub fn asset_id(&self) -> (r: &'static str)
        ensures
            r@ == asset_of(*self),
    {
        match self {
            ObjectiveKind::DuesterWald => "duesterwald",
            ObjectiveKind::TalDerMagier => "tal_der_magier",
            ObjectiveKind::LongRoad => "long_road",
            ObjectiveKind::BastionInTheWilderness => "bastion_in_the_wilderness",
            ObjectiveKind::Metropole => "metropole",
            ObjectiveKind::GoldenCorn => "corn",
            ObjectiveKind::Grenzland => "grenzland",
            ObjectiveKind::Gruenflaeche => "gruenflaeche",
            ObjectiveKind::AusgedehnteStraende => "ausgedehnte_straende",
            ObjectiveKind::SchildDesReichs => "schild_des_reichs",
            ObjectiveKind::SchillerndeEbene => "schillernde_ebene",
            ObjectiveKind::UnzugaenglicheBaronie => "unzugaengliche_baronie",
            ObjectiveKind::DieKessel => "die_kessel",
            ObjectiveKind::Schildwald => "schildwald",
            ObjectiveKind::Bewaesserungskanal => "bewaesserungskanal",
            ObjectiveKind::PfadDesWaldes => "pfad_des_waldes",
        }
    }

    /// Scores `grid` by this rule.
    pub fn score(&self, grid: &Grid) -> (r: Score)
        requires
            grid.wf(),
        ensures
            r.0 == objective_score(*self, *grid),
    {
        let points = match self {
            ObjectiveKind::DuesterWald => score_forest_enclosure(grid),
            ObjectiveKind::TalDerMagier => score_mountain_adjacency(grid),
            ObjectiveKind::LongRoad => score_full_diagonals(grid),
            ObjectiveKind::BastionInTheWilderness => score_large_villages(grid),
            ObjectiveKind::Metropole => score_isolated_village(grid),
            ObjectiveKind::GoldenCorn => score_ruin_bonus(grid),
            ObjectiveKind::Grenzland => score_full_lines(grid),
            ObjectiveKind::Gruenflaeche => score_forest_lines(grid),
            ObjectiveKind::AusgedehnteStraende => score_coastal(grid),
            ObjectiveKind::SchildDesReichs => score_second_village(grid),
            ObjectiveKind::SchillerndeEbene => score_diverse_villages(grid),
            ObjectiveKind::UnzugaenglicheBaronie => score_largest_square(grid),
            ObjectiveKind::DieKessel => score_enclosed_free(grid),
            ObjectiveKind::Schildwald => score_forest_border(grid),
            ObjectiveKind::Bewaesserungskanal => score_irrigation(grid),
            ObjectiveKind::PfadDesWaldes => score_linked_mountains(grid),
        };
        Score(points)
    }
}

/// Relies on rand's `SliceRandom::shuffle` with the thread-local generator:
/// the same items in some order.
#[verifier::external_body]
fn shuffle_objectives(v: &mut Vec<ObjectiveKind>)
    ensures
        final(v)@.to_multiset() == old(v)@.to_multiset(),
{
    v.shuffle(&mut rand::thread_rng());
}

/// The result of one season: both rules' names and scores, and the coins
/// collected so far.
#[derive(Debug, Clone, Copy, PartialEq, Eq)]
pub struct SeasonScore {
    pub a: (&'static str, Score),
    pub b: (&'static str, Score),
    pub coin_count: usize,
}

/// The four rules drawn for a game, the scores of the seasons played, and the
/// coins collected.
#[derive(Debug)]
pub struct GameObjectives {
    objectives: [ObjectiveKind; 4],
    scores: Vec<Option<SeasonScore>>,
    current_coins: Vec<Vec<Coordinate>>,
}

impl Default for GameObjectives {
    /// Four distinct rules drawn at random.
    fn default() -> (r: GameObjectives)
        ensures
            r.wf(),
            r.roster().len() == 4,
            r.roster().no_duplicates(),
            forall|i: int| 0 <= i < 4 ==> catalog_spec().contains(#[trigger] r.roster()[i]),
            r.season_scores() == seq![None::<SeasonScore>, None, None, None],
            r.coin_count() == 0,
    {
        GameObjectives::new_random()
    }
}

impl GameObjectives {
    pub closed spec fn roster(&self) -> Seq<ObjectiveKind> {
        self.objectives@
    }

    /// The cached result of each season, by season index.
    pub closed spec fn season_scores(&self) -> Seq<Option<SeasonScore>> {
        self.scores@
    }

    /// Number of coin collections recorded.
    pub closed spec fn coin_count(&self) -> nat {
        self.current_coins@.len()
    }

    pub closed spec fn wf(&self) -> bool {
        self.scores@.len() == 4
    }

    /// A game with the given four rules; season `i` is scored by rules `i`
    /// and `i + 1` (modulo four).
    pub fn from_roster(objectives: [ObjectiveKind; 4]) -> (r: GameObjectives)
        ensures
            r.wf(),
            r.roster() == objectives@,
            r.season_scores() == seq![None::<SeasonScore>, None, None, None],
            r.coin_count() == 0,
    {
        let scores: Vec<Option<SeasonScore>> = vec![None, None, None, None];
        let r = GameObjectives { objectives, scores, current_coins: Vec::new() };
        assert(r.scores@ =~= seq![None::<SeasonScore>, None, None, None]);
        r
    }

    /// A game whose rules are the last four of `shuffled`, last first; `None`
    /// when it holds fewer than four.
    pub fn from_shuffled(shuffled: Vec<ObjectiveKind>) -> (r: Option<GameObjectives>)
        ensures
            match r {
                Some(g) => {
                    &&& shuffled@.len() >= 4
                    &&& g.wf()
                    &&& g.roster() == seq![
                        shuffled@[shuffled@.len() - 1],
                        shuffled@[shuffled@.len() - 2],
                        shuffled@[shuffled@.len() - 3],
                        shuffled@[shuffled@.len() - 4],
                    ]
                    &&& g.season_scores() == seq![None::<SeasonScore>, None, None, None]
                    &&& g.coin_count() == 0
                },
                None => shuffled@.len() < 4,
            },
    {
        if shuffled.len() < 4 {
            return None;
        }
        let ghost s = shuffled@;
        let n = shuffled.len();
        let mut rest = shuffled;
        let mut drawn: Vec<ObjectiveKind> = Vec::new();
        let mut k: usize = 0;
        while k < 4
            invariant
                k <= 4,
                n == s.len(),
                n >= 4,
                rest@ == s.take(n - k),
                drawn@.len() == k,
                forall|i: int| 0 <= i < k ==> #[trigger] drawn@[i] == s[n - 1 - i],
            decreases 4 - k,
        {
            let o = rest.pop().unwrap();
            drawn.push(o);
            k += 1;
            assert(rest@ =~= s.take(n - k));
        }
        let roster: [ObjectiveKind; 4] = to_array(drawn);
        let r = GameObjectives::from_roster(roster);
        assert(r.roster() =~= seq![s[n - 1], s[n - 2], s[n - 3], s[n - 4]]);
        Some(r)
    }

    /// A game with four distinct rules drawn at random from the catalog.
    pub fn new_random() -> (r: GameObjectives)
        ensures
            r.wf(),
            r.roster().len() == 4,
            r.roster().no_duplicates(),
            forall|i: int| 0 <= i < 4 ==> catalog_spec().contains(#[trigger] r.roster()[i]),
            r.season_scores() == seq![None::<SeasonScore>, None, None, None],
            r.coin_count() == 0,
    {
        let mut objectives = ObjectiveKind::catalog();
        let ghost cat = objectives@;
        proof {
            assert(cat.no_duplicates()) by {
                assert forall|i: int, j: int| 0 <= i < cat.len() && 0 <= j < cat.len() && i != j implies cat[i] != cat[j] by {
                    assert(catalog_spec() =~= cat);
                }
            }
            cat.lemma_multiset_has_no_duplicates();
        }
        shuffle_objectives(&mut objectives);
        proof {
            broadcast use vstd::seq_lib::group_to_multiset_ensures;
            objectives@.lemma_multiset_has_no_duplicates_conv();
        }
        let ghost shuffled = objectives@;
        proof {
            broadcast use vstd::seq_lib::group_to_multiset_ensures;
            assert(cat.len() == 16);
            assert(shuffled.to_multiset().len() == shuffled.len());
            assert(cat.to_multiset().len() == cat.len());
        }
        let r = match GameObjectives::from_shuffled(objectives) {
            Some(r) => r,
            None => vstd::pervasive::unreached(),
        };
        proof {
            broadcast use vstd::seq_lib::group_to_multiset_ensures;
            assert forall|i: int, j: int| 0 <= i < 4 && 0 <= j < 4 && i != j implies r.roster()[i] != r.roster()[j] by {
                assert(shuffled[15 - i] != shuffled[15 - j]);
            }
            assert forall|i: int| 0 <= i < 4 implies catalog_spec().contains(#[trigger] r.roster()[i]) by {
                assert(shuffled.contains(shuffled[15 - i]));
                assert(shuffled.to_multiset().count(shuffled[15 - i]) > 0);
                assert(cat.contains(shuffled[15 - i]));
            }
        }
        r
    }

    /// The two rules that score `season`.
    pub fn objectives_for_season(&self, season: &SeasonType) -> (r: (ObjectiveKind, ObjectiveKind))
        ensures
            r.0 == self.roster()[season_index(*season)],
            r.1 == self.roster()[(season_index(*season) + 1) % 4],
    {
        let idx = season.index();
        (self.objectives[idx], self.objectives[(idx + 1) % 4])
    }

    /// Records the places of a coin collection.
    pub fn add_coin(&mut self, position: Vec<Coordinate>)
        ensures
            final(self).coin_count() == old(self).coin_count() + 1,
            final(self).roster() == old(self).roster(),
            final(self).season_scores() == old(self).season_scores(),
            old(self).wf() ==> final(self).wf(),
    {
        self.current_coins.push(position);
    }

    /// Scores `season` on `grid` the first time it is asked, and hands back
    /// that same result afterwards.
    pub fn score_season(&mut self, season: &SeasonType, grid: &Grid) -> (r: SeasonScore)
        requires
            old(self).wf(),
            grid.wf(),
        ensures
            final(self).wf(),
            final(self).roster() == old(self).roster(),
            final(self).coin_count() == old(self).coin_count(),
            match old(self).season_scores()[season_index(*season)] {
                Some(s) => r == s && final(self).season_scores() == old(self).season_scores(),
                None => {
                    &&& r.a.0@ == name_of(old(self).roster()[season_index(*season)])
                    &&& r.b.0@ == name_of(old(self).roster()[(season_index(*season) + 1) % 4])
                    &&& r.a.1.0 == objective_score(old(self).roster()[season_index(*season)], *grid)
                    &&& r.b.1.0 == objective_score(old(self).roster()[(season_index(*season) + 1) % 4], *grid)
                    &&& r.coin_count == old(self).coin_count()
                    &&& final(self).season_scores() == old(self).season_scores().update(season_index(*season), Some(r))
                },
            },
    {
        let idx = season.index();
        match self.scores[idx] {
            Some(s) => s,
            None => {
                let (first, second) = self.objectives_for_season(season);
                let s = SeasonScore {
                    a: (first.name(), first.score(grid)),
                    b: (second.name(), second.score(grid)),
                    coin_count: self.current_coins.len(),
                };
                self.scores.set(idx, Some(s));
                s
            },
        }
    }
}

} // verus!
