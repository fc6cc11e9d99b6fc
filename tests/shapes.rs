use kartograph::coordinate::Coordinate;
use kartograph::geometry::Geometry;
use kartograph::shape::{Rotation, RuinIndicator, Shape};
use kartograph::terrain::{AreaInfo, Cultivation, CultivationInformation, Field, Terrain};
use kartograph::util::to_array;

fn c(x: i32, y: i32) -> Coordinate {
    Coordinate::new(x, y)
}

#[test]
fn rotation_clockwise() {
    let mut g = Geometry::new(vec![c(0, 0), c(1, 0), c(0, 1)]).unwrap();
    g.rotate_clockwise();
    assert_eq!(g.cells(), &vec![c(0, 0), c(0, -1), c(1, 0)]);
    g.rotate_counter_clockwise();
    assert_eq!(g.cells(), &vec![c(0, 0), c(1, 0), c(0, 1)]);
}

#[test]
fn four_turns_restore_the_offsets() {
    let offsets = vec![c(0, 0), c(1, 0), c(1, 1), c(2, 1), c(-1, 0)];
    let mut g = Geometry::new(offsets.clone()).unwrap();
    for _ in 0..4 {
        g.rotate_clockwise();
    }
    assert_eq!(g.cells(), &offsets);
}

#[test]
fn mirror_twice_restores_the_offsets() {
    let offsets = vec![c(0, 0), c(1, 0), c(1, -1)];
    let mut g = Geometry::new(offsets.clone()).unwrap();
    g.mirror();
    assert_eq!(g.cells(), &vec![c(0, 0), c(-1, 0), c(-1, -1)]);
    g.mirror();
    assert_eq!(g.cells(), &offsets);
}

#[test]
fn geometry_must_not_be_empty() {
    assert!(Geometry::new(vec![]).is_none());
    assert!(Geometry::new(vec![c(i32::MIN, 0)]).is_none());
    assert!(Geometry::new(vec![c(0, 0), c(2, 0)]).is_none());
    assert!(Geometry::new(vec![c(0, 0), c(1, 1)]).is_none());
    assert!(Geometry::new(vec![c(5, 5), c(5, 6), c(4, 6)]).is_some());
    assert!(Geometry::new(vec![c(0, 0), c(2, 0), c(1, 0)]).is_some());
    let d = Geometry::default();
    assert_eq!(d.cells(), &vec![c(0, 0)]);
    assert_eq!(d.len(), 1);
}

#[test]
fn bounding_box() {
    let g = Geometry::new(vec![c(0, 0), c(1, 0), c(1, 1), c(1, 2), c(-1, 0)]).unwrap();
    let (lo, hi) = g.min_max();
    assert_eq!(lo, c(-1, 0));
    assert_eq!(hi, c(1, 2));
}

#[test]
fn shape_turns_keep_the_rest() {
    let g = Geometry::new(vec![c(0, 0), c(1, 0)]).unwrap();
    let mut s = Shape::new(&g, &Cultivation::Goblin, &RuinIndicator(true), true);
    s.rotate_clockwise();
    assert_eq!(s.geometry().cells(), &vec![c(0, 0), c(0, -1)]);
    s.mirror();
    s.rotate_counter_clockwise();
    assert_eq!(s.geometry().cells(), &vec![c(0, 0), c(1, 0)]);
    assert_eq!(s.cultivation(), Cultivation::Goblin);
    assert!(s.ruin().value());
    assert!(s.coin());
}

#[test]
fn ruin_indicator() {
    let mut r = RuinIndicator::default();
    assert!(!r.value());
    r.set();
    assert!(r.value());
    r.reset();
    assert!(!r.value());
}

#[test]
fn coordinates() {
    assert_eq!(c(1, 2).checked_add(&c(3, -4)), Some(c(4, -2)));
    assert_eq!(c(i32::MAX, 0).checked_add(&c(1, 0)), None);
    assert_eq!(c(2, 3).perp(), c(-3, 2));
    assert!(c(1, 9).is_before(&c(2, 0)));
    assert!(c(1, 1).is_before(&c(1, 2)));
    assert!(!c(1, 2).is_before(&c(1, 2)));
    assert_eq!(Coordinate::from_indices(4, 7), c(4, 7));
}

#[test]
fn cells_and_terrain() {
    let f = Field::new(c(3, 3));
    assert!(f.is_free());
    assert!(!f.is_ruin());
    assert_eq!(Terrain::default(), Terrain::Normal);
    assert!(Terrain::Mountain(false).is_mountain());
    let info = CultivationInformation::from_cultivation(Cultivation::Farm);
    assert_eq!(info.cultivation(), &Cultivation::Farm);
    assert_eq!(info.area_id().value(), 0);
    let area = AreaInfo { kind: Cultivation::Farm, field_coords: vec![c(0, 0), c(0, 1)] };
    assert_eq!(area.size(), 2);
    assert_eq!(Cultivation::all().len(), 5);
}

#[test]
fn vector_to_array() {
    let a: [u8; 3] = to_array(vec![1, 2, 3]);
    assert_eq!(a, [1, 2, 3]);
}

#[test]
fn rotation_steps() {
    let mut r = Rotation::default();
    assert_eq!(r, Rotation::North);
    r.rotate_cw();
    assert_eq!(r, Rotation::East);
    r.rotate_ccw();
    r.rotate_ccw();
    assert_eq!(r, Rotation::West);
}

#[test]
fn configure_mirrors_then_turns() {
    let g = Geometry::new(vec![c(0, 0), c(1, 0), c(1, 1)]).unwrap();
    let mut s = Shape::new(&g, &Cultivation::Farm, &RuinIndicator(false), false);
    s.configure(&Rotation::South, &true);
    assert_eq!(s.geometry().cells(), &vec![c(0, 0), c(1, 0), c(1, -1)]);
    let mut t = Shape::new(&g, &Cultivation::Farm, &RuinIndicator(false), false);
    t.configure(&Rotation::East, &false);
    assert_eq!(t.geometry().cells(), &vec![c(0, 0), c(0, -1), c(1, -1)]);
}

#[test]
fn single_cell_shape() {
    let s = Shape::from_cultivation(Cultivation::Water);
    assert_eq!(s.geometry().cells(), &vec![c(0, 0)]);
    assert_eq!(s.cultivation(), Cultivation::Water);
    assert!(!s.ruin().value());
    assert!(!s.coin());
}

#[test]
fn default_shape_is_a_village_l() {
    let s = Shape::default();
    assert_eq!(s.geometry().cells(), &vec![c(1, 0), c(0, 1), c(0, 0)]);
    assert_eq!(s.cultivation(), Cultivation::Village);
    assert!(!s.ruin().value());
}
