//! Pieces to place: a geometry with its cultivation, ruin requirement and coin.
use vstd::prelude::*;
use crate::geometry::{Geometry, rotate_cw_all, rotate_ccw_all, mirror_all, oriented};
use crate::terrain::Cultivation;

verus! {

/// Whether a shape must cover at least one ruin cell.
#[derive(Debug, Clone, Copy, PartialEq, Eq, Structural, Default)]
pub struct RuinIndicator(pub bool);

impl RuinIndicator {
    pub fn set(&mut self)
        ensures
            final(self).0,
    {
        self.0 = true;
    }

    pub fn reset(&mut self)
        ensures
            !final(self).0,
    {
        self.0 = false;
    }

    pub fn value(&self) -> (r: bool)
        ensures
            r == self.0,
    {
        self.0
    }
}

/// The orientation of a piece: how many quarter turns clockwise from north.
#[derive(Debug, Clone, Copy, PartialEq, Eq, Structural)]
pub enum Rotation {
    North,
    East,
    South,
    West,
}

pub open spec fn quarter_turns(r: Rotation) -> nat {
    match r {
        Rotation::North => 0,
        Rotation::East => 1,
        Rotation::South => 2,
        Rotation::West => 3,
    }
}

impl Rotation {
    /// A quarter turn clockwise.
    pub fn rotate_cw(&mut self)
        ensures
            quarter_turns(*final(self)) == (quarter_turns(*old(self)) + 1) % 4,
    {
        *self = match self {
            Rotation::North => Rotation::East,
            Rotation::East => Rotation::South,
            Rotation::South => Rotation::West,
            Rotation::West => Rotation::North,
        };
    }

    /// A quarter turn counter-clockwise.
    pub fn rotate_ccw(&mut self)
        ensures
            quarter_turns(*final(self)) == (quarter_turns(*old(self)) + 3) % 4,
    {
        *self = match self {
            Rotation::North => Rotation::West,
            Rotation::East => Rotation::North,
            Rotation::South => Rotation::East,
            Rotation::West => Rotation::South,
        };
    }
}

impl Default for Rotation {
    fn default() -> (r: Rotation)
        ensures
            r == Rotation::North,
    {
        Rotation::North
    }
}

/// A placeable piece: a geometry, what it cultivates, whether it must cover a
/// ruin, and whether it carries a coin.
#[derive(Debug)]
pub struct Shape {
    coin: bool,
    geometry: Geometry,
    cultivation: Cultivation,
    ruin: RuinIndicator,
}

impl Default for Shape {
    /// A village triomino in the shape of an L, no ruin required, no coin.
    fn default() -> (r: Shape)
        ensures
            r.wf(),
            r.geometry_view() == seq![
                crate::coordinate::Coordinate { x: 1, y: 0 },
                crate::coordinate::Coordinate { x: 0, y: 1 },
                crate::coordinate::Coordinate { x: 0, y: 0 },
            ],
            r.cultivation_view() == Cultivation::Village,
            !r.ruin_view(),
            !r.coin_view(),
    {
        let cells = vec![
            crate::coordinate::Coordinate { x: 1, y: 0 },
            crate::coordinate::Coordinate { x: 0, y: 1 },
            crate::coordinate::Coordinate { x: 0, y: 0 },
        ];
        proof {
            let v = cells@;
            reveal(crate::geometry::connected_offsets);
            assert(crate::geometry::offset_walk(v, seq![0int]));
            assert(crate::geometry::offset_walk(v, seq![0int, 2]));
            assert(crate::geometry::offset_walk(v, seq![0int, 2, 1]));
            assert(crate::geometry::walk_reaches(v, 0));
            assert(crate::geometry::walk_reaches(v, 1));
            assert(crate::geometry::walk_reaches(v, 2));
        }
        let geometry = match Geometry::new(cells) {
            Some(g) => g,
            None => vstd::pervasive::unreached(),
        };
        Shape { coin: false, geometry, cultivation: Cultivation::Village, ruin: RuinIndicator(false) }
    }
}

impl Shape {
    pub closed spec fn geometry_view(&self) -> Seq<crate::coordinate::Coordinate> {
        self.geometry@
    }

    pub closed spec fn cultivation_view(&self) -> Cultivation {
        self.cultivation
    }

    pub closed spec fn ruin_view(&self) -> bool {
        self.ruin.0
    }

    pub closed spec fn coin_view(&self) -> bool {
        self.coin
    }

    pub closed spec fn wf(&self) -> bool {
        self.geometry.wf()
    }

    pub fn new(g: &Geometry, cult: &Cultivation, ruin: &RuinIndicator, coin: bool) -> (r: Shape)
        requires
            g.wf(),
        ensures
            r.wf(),
            r.geometry_view() == g@,
            r.cultivation_view() == *cult,
            r.ruin_view() == ruin.0,
            r.coin_view() == coin,
    {
        Shape { coin, geometry: g.duplicate(), cultivation: *cult, ruin: *ruin }
    }

    /// A single cell of `c`, with no ruin required and no coin.
    pub fn from_cultivation(c: Cultivation) -> (r: Shape)
        ensures
            r.wf(),
            r.geometry_view() == seq![crate::coordinate::Coordinate { x: 0, y: 0 }],
            r.cultivation_view() == c,
            !r.ruin_view(),
            !r.coin_view(),
    {
        Shape { coin: false, geometry: Geometry::default(), cultivation: c, ruin: RuinIndicator(false) }
    }

    /// Brings the piece from its north orientation into `rotation`, mirrored
    /// first where `mirror` holds.
    pub fn configure(&mut self, rotation: &Rotation, mirror: &bool)
        requires
            old(self).wf(),
        ensures
            final(self).wf(),
            final(self).geometry_view() == oriented(old(self).geometry_view(), *mirror, quarter_turns(*rotation)),
            final(self).cultivation_view() == old(self).cultivation_view(),
            final(self).ruin_view() == old(self).ruin_view(),
            final(self).coin_view() == old(self).coin_view(),
    {
        let ghost start = self.geometry@;
        if *mirror {
            self.mirror();
        }
        let mut own_rotation = Rotation::default();
        let mut turns: usize = 0;
        while *rotation != own_rotation
            invariant
                self.wf(),
                turns <= 3,
                quarter_turns(own_rotation) == turns,
                turns <= quarter_turns(*rotation),
                self.geometry_view() == oriented(start, *mirror, turns as nat),
                self.cultivation_view() == old(self).cultivation_view(),
                self.ruin_view() == old(self).ruin_view(),
                self.coin_view() == old(self).coin_view(),
            decreases 3 - turns,
        {
            self.rotate_clockwise();
            own_rotation.rotate_cw();
            turns += 1;
        }
    }

    pub fn geometry(&self) -> (r: &Geometry)
        ensures
            r@ == self.geometry_view(),
            self.wf() ==> r.wf(),
    {
        &self.geometry
    }

    pub fn cultivation(&self) -> (r: Cultivation)
        ensures
            r == self.cultivation_view(),
    {
        self.cultivation
    }

    pub fn ruin(&self) -> (r: RuinIndicator)
        ensures
            r.0 == self.ruin_view(),
    {
        self.ruin
    }

    pub fn coin(&self) -> (r: bool)
        ensures
            r == self.coin_view(),
    {
        self.coin
    }

    pub fn rotate_clockwise(&mut self)
        requires
            old(self).wf(),
        ensures
            final(self).wf(),
            final(self).geometry_view() == rotate_cw_all(old(self).geometry_view()),
            final(self).cultivation_view() == old(self).cultivation_view(),
            final(self).ruin_view() == old(self).ruin_view(),
            final(self).coin_view() == old(self).coin_view(),
    {
        self.geometry.rotate_clockwise();
    }

    pub fn rotate_counter_clockwise(&mut self)
        requires
            old(self).wf(),
        ensures
            final(self).wf(),
            final(self).geometry_view() == rotate_ccw_all(old(self).geometry_view()),
            final(self).cultivation_view() == old(self).cultivation_view(),
            final(self).ruin_view() == old(self).ruin_view(),
            final(self).coin_view() == old(self).coin_view(),
    {
        self.geometry.rotate_counter_clockwise();
    }

    pub fn mirror(&mut self)
        requires
            old(self).wf(),
        ensures
            final(self).wf(),
            final(self).geometry_view() == mirror_all(old(self).geometry_view()),
            final(self).cultivation_view() == old(self).cultivation_view(),
            final(self).ruin_view() == old(self).ruin_view(),
            final(self).coin_view() == old(self).coin_view(),
    {
        self.geometry.mirror();
    }
}

} // verus!
