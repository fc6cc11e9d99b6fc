//! What a cell holds: terrain, cultivation, and the records of areas.
use vstd::prelude::*;
use crate::coordinate::Coordinate;

verus! {

/// What a cell has been cultivated with.
#[derive(Debug, Clone, Copy, PartialEq, Eq, Structural, PartialOrd, Ord, Hash)]
pub enum Cultivation {
    Village,
    Water,
    Farm,
    Forest,
    Goblin,
}

impl Cultivation {
    /// Every kind of cultivation, in declaration order.
    pub fn all() -> (r: Vec<Cultivation>)
        ensures
            r@ == seq![
                Cultivation::Village,
                Cultivation::Water,
                Cultivation::Farm,
                Cultivation::Forest,
                Cultivation::Goblin,
            ],
    {
        vec![
            Cultivation::Village,
            Cultivation::Water,
            Cultivation::Farm,
            Cultivation::Forest,
            Cultivation::Goblin,
        ]
    }
}

/// The fixed structure of a cell. A mountain records whether its coin is
/// still to be collected.
#[derive(Debug, Clone, Copy, PartialEq, Eq, Structural, PartialOrd, Ord, Hash)]
pub enum Terrain {
    Normal,
    Mountain(bool),
    Ruin,
}

impl Terrain {
    pub fn is_mountain(&self) -> (r: bool)
        ensures
            r == self is Mountain,
    {
        matches!(self, Terrain::Mountain(_))
    }

    pub fn is_ruin(&self) -> (r: bool)
        ensures
            r == self is Ruin,
    {
        matches!(self, Terrain::Ruin)
    }
}

impl Default for Terrain {
    fn default() -> (r: Terrain)
        ensures
            r == Terrain::Normal,
    {
        Terrain::Normal
    }
}

/// Identifier of a connected area. Identifiers are handed out by a counter
/// that starts at 1; 0 marks a cell whose area is not settled yet.
#[derive(Debug, Clone, Copy, PartialEq, Eq, Structural, PartialOrd, Ord, Hash)]
pub struct AreaID(pub usize);

impl AreaID {
    pub fn value(&self) -> (r: usize)
        ensures
            r == self.0,
    {
        self.0
    }
}

/// The cultivation of a cell together with the area it belongs to.
#[derive(Debug, Clone, Copy, PartialEq, Eq, Structural, PartialOrd, Ord, Hash)]
pub struct CultivationInformation {
    pub cultivation: Cultivation,
    pub area_id: AreaID,
}

impl CultivationInformation {
    /// A fresh cultivation whose area is not settled yet.
    pub fn from_cultivation(c: Cultivation) -> (r: CultivationInformation)
        ensures
            r.cultivation == c,
            r.area_id == AreaID(0),
    {
        CultivationInformation { cultivation: c, area_id: AreaID(0) }
    }

    pub fn cultivation(&self) -> (r: &Cultivation)
        ensures
            *r == self.cultivation,
    {
        &self.cultivation
    }

    pub fn area_id(&self) -> (r: AreaID)
        ensures
            r == self.area_id,
    {
        self.area_id
    }
}

/// One cell of the grid.
#[derive(Debug, Clone, Copy, PartialEq, Eq, Structural)]
pub struct Field {
    pub cultivation: Option<CultivationInformation>,
    pub terrain: Terrain,
    pub position: Coordinate,
}

/// A cell is free when it is neither a mountain nor cultivated.
pub open spec fn field_free(f: Field) -> bool {
    !(f.terrain is Mountain) && f.cultivation.is_none()
}

/// The cell is cultivated with `c`.
pub open spec fn field_has(f: Field, c: Cultivation) -> bool {
    f.cultivation is Some && f.cultivation->Some_0.cultivation == c
}

impl Field {
    /// An uncultivated cell of normal terrain.
    pub fn new(position: Coordinate) -> (r: Field)
        ensures
            r.position == position,
            r.terrain == Terrain::Normal,
            r.cultivation.is_none(),
    {
        Field { cultivation: None, terrain: Terrain::Normal, position }
    }

    pub fn position(&self) -> (r: Coordinate)
        ensures
            r == self.position,
    {
        self.position
    }

    pub fn terrain(&self) -> (r: Terrain)
        ensures
            r == self.terrain,
    {
        self.terrain
    }

    pub fn is_free(&self) -> (r: bool)
        ensures
            r == field_free(*self),
    {
        !self.terrain.is_mountain() && self.cultivation.is_none()
    }

    pub fn is_ruin(&self) -> (r: bool)
        ensures
            r == (self.terrain is Ruin),
    {
        self.terrain.is_ruin()
    }

    /// Whether the cell is cultivated with `c`.
    pub fn has_cultivation(&self, c: Cultivation) -> (r: bool)
        ensures
            r == field_has(*self, c),
    {
        match self.cultivation {
            Some(info) => info.cultivation == c,
            None => false,
        }
    }
}

/// The record of one connected area: its kind and its member cells in
/// ascending coordinate order.
#[derive(Debug, Clone, PartialEq, Eq)]
pub struct AreaInfo {
    pub kind: Cultivation,
    pub field_coords: Vec<Coordinate>,
}

impl AreaInfo {
    pub fn size(&self) -> (r: usize)
        ensures
            r == self.field_coords@.len(),
    {
        self.field_coords.len()
    }
}

} // verus!
