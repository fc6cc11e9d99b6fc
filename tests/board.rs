use kartograph::coordinate::Coordinate;
use kartograph::geometry::Geometry;
use kartograph::grid::Grid;
use kartograph::shape::{RuinIndicator, Shape};
use kartograph::terrain::{AreaID, Cultivation, Terrain};

fn c(x: i32, y: i32) -> Coordinate {
    Coordinate::new(x, y)
}

fn geom(cells: &[(i32, i32)]) -> Geometry {
    Geometry::new(cells.iter().map(|&(x, y)| c(x, y)).collect()).unwrap()
}

fn empty_board() -> Grid {
    Grid::initialize(&vec![], &vec![])
}

fn place(grid: &mut Grid, cells: &[(i32, i32)], x: i32, y: i32, kind: Cultivation) {
    let g = geom(cells);
    assert!(grid.accepts_geometry_at(&g, &c(x, y), false));
    grid.cultivate(&g, &c(x, y), kind);
}

fn cells_with_id(grid: &Grid, id: AreaID) -> usize {
    grid.all()
        .iter()
        .filter(|f| f.cultivation.map(|i| i.area_id() == id).unwrap_or(false))
        .count()
}

#[test]
fn default_layout() {
    let grid = Grid::new();
    let mountains: Vec<Coordinate> = grid.mountains().iter().map(|f| f.position()).collect();
    assert_eq!(mountains, vec![c(7, 1), c(2, 2), c(5, 5), c(8, 8), c(3, 9)]);
    let ruins: Vec<Coordinate> = grid.ruins().iter().map(|f| f.position()).collect();
    assert_eq!(ruins, vec![c(5, 1), c(1, 2), c(9, 2), c(1, 8), c(9, 8), c(5, 9)]);
    assert_eq!(grid.all().len(), 121);
    assert!(grid.is_ruin(&c(9, 8)));
    assert!(!grid.is_free(&c(5, 5)));
    assert!(grid.is_free(&c(1, 2)));
    assert!(!grid.is_free(&c(-1, 0)));
    assert!(!grid.is_free(&c(11, 0)));
    assert!(grid.at(&c(0, 11)).is_err());
    assert_eq!(grid.at(&c(7, 1)).unwrap().terrain(), Terrain::Mountain(true));
}

#[test]
fn neighbors_are_clipped_at_the_edge() {
    let grid = Grid::new();
    let corner: Vec<Coordinate> = grid.neighbors(&c(0, 0)).iter().map(|f| f.position()).collect();
    assert_eq!(corner, vec![c(0, 1), c(1, 0)]);
    let inner: Vec<Coordinate> = grid.neighbors(&c(4, 4)).iter().map(|f| f.position()).collect();
    assert_eq!(inner, vec![c(4, 5), c(4, 3), c(5, 4), c(3, 4)]);
    assert_eq!(grid.neighbors(&c(10, 5)).len(), 3);
}

#[test]
fn rows_columns_and_diagonals() {
    let grid = Grid::new();
    let row: Vec<Coordinate> = grid.row(2).iter().map(|f| f.position()).collect();
    assert_eq!(row.len(), 11);
    assert_eq!(row[0], c(0, 2));
    assert_eq!(row[10], c(10, 2));
    let col: Vec<Coordinate> = grid.column(3).iter().map(|f| f.position()).collect();
    assert_eq!(col[9], c(3, 9));
    let d2: Vec<Coordinate> = grid.nth_diagonal(2).iter().map(|f| f.position()).collect();
    assert_eq!(d2, vec![c(2, 0), c(1, 1), c(0, 2)]);
    let d19: Vec<Coordinate> = grid.nth_diagonal(19).iter().map(|f| f.position()).collect();
    assert_eq!(d19, vec![c(10, 9), c(9, 10)]);
    assert!(grid.nth_diagonal(21).is_empty());
    let diagonals = grid.diagonals();
    assert_eq!(diagonals.len(), 21);
    assert_eq!(diagonals.iter().map(|d| d.len()).sum::<usize>(), 121);
    assert_eq!(grid.rows().len(), 11);
    assert_eq!(grid.columns()[4].len(), 11);
    assert!(grid.row(11).is_empty());
    assert!(grid.column(40).is_empty());
}

#[test]
fn placement_rejects_out_of_bounds() {
    let grid = Grid::new();
    let bar = geom(&[(0, 0), (1, 0), (2, 0)]);
    assert!(grid.accepts_geometry_at(&bar, &c(8, 0), false));
    assert!(!grid.accepts_geometry_at(&bar, &c(9, 0), false));
    assert!(!grid.accepts_geometry_at(&bar, &c(-1, 0), false));
    assert!(!grid.accepts_geometry_at(&bar, &c(0, 11), false));
    let far = geom(&[(i32::MAX, 0)]);
    assert!(!grid.accepts_geometry_at(&far, &c(3, 3), false));
}

#[test]
fn placement_rejects_mountains_and_cultivated_cells() {
    let mut grid = Grid::new();
    let dot = geom(&[(0, 0)]);
    assert!(!grid.accepts_geometry_at(&dot, &c(5, 5), false));
    place(&mut grid, &[(0, 0)], 0, 0, Cultivation::Farm);
    assert!(!grid.accepts_geometry_at(&dot, &c(0, 0), false));
    let bar = geom(&[(0, 0), (1, 0)]);
    assert!(!grid.accepts_geometry_at(&bar, &c(4, 5), false));
}

#[test]
fn ruin_requirement() {
    let grid = Grid::new();
    let dot = geom(&[(0, 0)]);
    assert!(grid.accepts_geometry_at(&dot, &c(1, 2), true));
    assert!(grid.accepts_geometry_at(&dot, &c(1, 2), false));
    assert!(!grid.accepts_geometry_at(&dot, &c(0, 0), true));
    assert!(grid.accepts_geometry_at(&dot, &c(0, 0), false));
    let bar = geom(&[(0, 0), (1, 0)]);
    assert!(grid.accepts_geometry_at(&bar, &c(0, 2), true));
}

#[test]
fn try_cultivate_validates_first() {
    let mut grid = Grid::new();
    let shape = Shape::new(&geom(&[(0, 0), (1, 0)]), &Cultivation::Forest, &RuinIndicator(true), false);
    assert!(grid.try_cultivate(&shape, &c(0, 0)).is_err());
    assert!(grid.is_free(&c(0, 0)));
    let placed = grid.try_cultivate(&shape, &c(0, 2)).unwrap();
    assert_eq!(placed, vec![c(0, 2), c(1, 2)]);
    assert!(!grid.is_free(&c(1, 2)));
    assert_eq!(grid.area_ids(Cultivation::Forest).len(), 1);
}

#[test]
fn end_to_end_l_shape_then_merge() {
    let mut grid = Grid::new();
    let l = geom(&[(0, 0), (1, 0), (0, 1)]);
    assert!(grid.accepts_geometry_at(&l, &c(4, 4), false));
    grid.cultivate(&l, &c(4, 4), Cultivation::Village);
    let areas = grid.area_ids(Cultivation::Village);
    assert_eq!(areas.len(), 1);
    assert_eq!(areas[0].1, 3);
    let first = areas[0].0;
    let dot = geom(&[(0, 0)]);
    assert!(grid.accepts_geometry_at(&dot, &c(3, 4), false));
    grid.cultivate(&dot, &c(3, 4), Cultivation::Village);
    let areas = grid.area_ids(Cultivation::Village);
    assert_eq!(areas.len(), 1);
    assert_eq!(areas[0].1, 4);
    assert!(grid.area_info(first).is_none());
    let members = &grid.area_info(areas[0].0).unwrap().field_coords;
    assert_eq!(members, &vec![c(3, 4), c(4, 4), c(4, 5), c(5, 4)]);
}

#[test]
fn distant_cell_starts_its_own_area() {
    let mut grid = Grid::new();
    place(&mut grid, &[(0, 0), (1, 0), (0, 1)], 4, 4, Cultivation::Village);
    place(&mut grid, &[(0, 0)], 1, 4, Cultivation::Village);
    let areas = grid.area_ids(Cultivation::Village);
    assert_eq!(areas.iter().map(|a| a.1).collect::<Vec<_>>(), vec![3, 1]);
}

#[test]
fn merge_two_single_cells() {
    let mut grid = empty_board();
    place(&mut grid, &[(0, 0)], 3, 3, Cultivation::Water);
    place(&mut grid, &[(0, 0)], 5, 3, Cultivation::Water);
    let before = grid.area_ids(Cultivation::Water);
    assert_eq!(before.len(), 2);
    let (a, b) = (before[0].0, before[1].0);
    assert!(a.value() != b.value());
    place(&mut grid, &[(0, 0)], 4, 3, Cultivation::Water);
    let after = grid.area_ids(Cultivation::Water);
    assert_eq!(after.len(), 1);
    assert!(grid.area_info(a).is_none());
    assert!(grid.area_info(b).is_none());
    let info = grid.area_info(after[0].0).unwrap();
    assert_eq!(info.kind, Cultivation::Water);
    assert_eq!(info.field_coords, vec![c(3, 3), c(4, 3), c(5, 3)]);
}

#[test]
fn other_kinds_do_not_merge() {
    let mut grid = empty_board();
    place(&mut grid, &[(0, 0)], 3, 3, Cultivation::Water);
    place(&mut grid, &[(0, 0)], 4, 3, Cultivation::Farm);
    assert_eq!(grid.area_ids(Cultivation::Water).len(), 1);
    assert_eq!(grid.area_ids(Cultivation::Farm).len(), 1);
    assert!(grid.area_ids(Cultivation::Goblin).is_empty());
}

#[test]
fn area_sizes_match_cells() {
    let mut grid = Grid::new();
    place(&mut grid, &[(0, 0), (1, 0)], 0, 0, Cultivation::Forest);
    place(&mut grid, &[(0, 0), (0, 1)], 2, 0, Cultivation::Forest);
    place(&mut grid, &[(0, 0), (1, 0), (2, 0)], 0, 5, Cultivation::Farm);
    place(&mut grid, &[(0, 0)], 3, 0, Cultivation::Forest);
    place(&mut grid, &[(0, 0), (0, 1)], 0, 6, Cultivation::Farm);
    for kind in Cultivation::all() {
        for (id, size) in grid.area_ids(kind) {
            assert_eq!(size, cells_with_id(&grid, id));
            assert_eq!(grid.area_info(id).unwrap().size(), size);
        }
    }
    let forests = grid.area_ids(Cultivation::Forest);
    assert_eq!(forests.len(), 1);
    assert_eq!(forests[0].1, 5);
}

#[test]
fn ranking_breaks_ties_by_newer_area() {
    let mut grid = empty_board();
    place(&mut grid, &[(0, 0)], 0, 0, Cultivation::Village);
    place(&mut grid, &[(0, 0), (1, 0)], 5, 5, Cultivation::Village);
    place(&mut grid, &[(0, 0)], 9, 9, Cultivation::Village);
    let ranked = grid.area_ids(Cultivation::Village);
    assert_eq!(ranked.iter().map(|a| a.1).collect::<Vec<_>>(), vec![2, 1, 1]);
    assert!(ranked[1].0.value() > ranked[2].0.value());
}

#[test]
fn area_neighbors_of_an_area() {
    let mut grid = empty_board();
    place(&mut grid, &[(0, 0), (1, 0)], 0, 0, Cultivation::Village);
    let id = grid.area_ids(Cultivation::Village)[0].0;
    let mut around: Vec<Coordinate> = grid.area_neighbors(&id).iter().map(|f| f.position()).collect();
    around.sort();
    assert_eq!(around, vec![c(0, 0), c(0, 1), c(1, 0), c(1, 1), c(2, 0)]);
    assert!(grid.area_neighbors(&AreaID(999)).is_empty());
}

#[test]
fn mountain_coins_are_reported_once() {
    let mut grid = Grid::new();
    assert!(grid.mountain_coins().is_empty());
    place(&mut grid, &[(0, 0)], 2, 3, Cultivation::Farm);
    place(&mut grid, &[(0, 0)], 2, 1, Cultivation::Farm);
    place(&mut grid, &[(0, 0)], 3, 2, Cultivation::Farm);
    assert!(grid.mountain_coins().is_empty());
    place(&mut grid, &[(0, 0)], 1, 2, Cultivation::Water);
    assert_eq!(grid.mountain_coins(), vec![c(2, 2)]);
    assert_eq!(grid.at(&c(2, 2)).unwrap().terrain(), Terrain::Mountain(false));
    assert!(grid.mountain_coins().is_empty());
}

#[test]
fn dead_card_detection() {
    // every cell is a mountain but a two by two block in the corner
    let mut mountains = Vec::new();
    for x in 0..11 {
        for y in 0..11 {
            if x > 1 || y > 1 {
                mountains.push(c(x, y));
            }
        }
    }
    let grid = Grid::initialize(&vec![], &mountains);
    let five = geom(&[(0, 0), (1, 0), (2, 0), (3, 0), (4, 0)]);
    assert!(!grid.accepts_geometry(&five, false));
    let square = geom(&[(0, 0), (1, 0), (0, 1), (1, 1)]);
    assert!(grid.accepts_geometry(&square, false));
    assert!(!grid.accepts_geometry(&square, true));
    let l = geom(&[(0, 0), (0, 1), (0, 2)]);
    assert!(!grid.accepts_geometry(&l, false));
}

#[test]
fn accepts_geometry_tries_turns_and_mirror() {
    let mut mountains = Vec::new();
    for x in 0..11 {
        for y in 0..11 {
            if !(x == 0 && y < 3) && !(x == 1 && y == 0) {
                mountains.push(c(x, y));
            }
        }
    }
    let grid = Grid::initialize(&vec![], &mountains);
    // free cells: (0,0), (0,1), (0,2), (1,0)
    let l = geom(&[(0, 0), (1, 0), (1, 1), (1, 2)]);
    assert!(!grid.accepts_geometry_at(&l, &c(0, 0), false));
    assert!(grid.accepts_geometry(&l, false));
}

#[test]
fn coins_are_reported_row_by_row() {
    let mut grid = Grid::initialize(&vec![], &vec![c(2, 2), c(7, 1)]);
    for (x, y) in [(2, 3), (2, 1), (3, 2), (1, 2), (7, 2), (7, 0), (8, 1), (6, 1)] {
        place(&mut grid, &[(0, 0)], x, y, Cultivation::Goblin);
    }
    assert_eq!(grid.mountain_coins(), vec![c(7, 1), c(2, 2)]);
}
