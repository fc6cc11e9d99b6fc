//! The board: layout, cell queries and placement validation.
use vstd::prelude::*;
use std::collections::HashMap;
use crate::coordinate::Coordinate;
use crate::geometry::{Geometry, oriented, valid_offsets, offset_walk, walk_reaches, connected_offsets, lemma_oriented_valid};
use crate::terrain::{AreaInfo, Cultivation, Field, Terrain, field_free};

verus! {

broadcast use vstd::std_specs::hash::group_hash_axioms;

/// Edge length of the square grid.
pub const SIZE: usize = 11;

/// Number of cells of the grid.
pub const CELLS: usize = 121;

pub open spec fn in_bounds(x: int, y: int) -> bool {
    0 <= x < SIZE && 0 <= y < SIZE
}

/// Cells are stored column by column: ascending `x`, then ascending `y`,
/// which is ascending coordinate order.
pub open spec fn idx(x: int, y: int) -> int {
    x * 11 + y
}

pub open spec fn pos_of(i: int) -> Coordinate {
    Coordinate { x: (i / 11) as i32, y: (i % 11) as i32 }
}

pub proof fn lemma_idx_pos(x: int, y: int)
    requires
        in_bounds(x, y),
    ensures
        0 <= idx(x, y) < CELLS,
        pos_of(idx(x, y)).x == x,
        pos_of(idx(x, y)).y == y,
{
    assert(0 <= idx(x, y) < 121) by (nonlinear_arith)
        requires 0 <= x < 11 && 0 <= y < 11;
    assert((x * 11 + y) / 11 == x && (x * 11 + y) % 11 == y) by (nonlinear_arith)
        requires 0 <= x < 11 && 0 <= y < 11;
}

pub proof fn lemma_pos_idx(i: int)
    requires
        0 <= i < CELLS,
    ensures
        in_bounds(pos_of(i).x as int, pos_of(i).y as int),
        idx(pos_of(i).x as int, pos_of(i).y as int) == i,
{
    assert(0 <= i / 11 < 11 && 0 <= i % 11 < 11 && (i / 11) * 11 + i % 11 == i) by (nonlinear_arith)
        requires 0 <= i < 121;
}

/// The cell at `(x, y)`; meaningful only in bounds.
pub open spec fn cell(cells: Seq<Field>, x: int, y: int) -> Field {
    cells[idx(x, y)]
}

pub open spec fn free_at(cells: Seq<Field>, x: int, y: int) -> bool {
    in_bounds(x, y) && field_free(cell(cells, x, y))
}

pub open spec fn ruin_at(cells: Seq<Field>, x: int, y: int) -> bool {
    in_bounds(x, y) && cell(cells, x, y).terrain is Ruin
}

pub open spec fn mountain_at(cells: Seq<Field>, x: int, y: int) -> bool {
    in_bounds(x, y) && cell(cells, x, y).terrain is Mountain
}

/// The cell at `(x, y)` as a one-element sequence, or nothing out of bounds.
pub open spec fn cell_if_in(cells: Seq<Field>, x: int, y: int) -> Seq<Field> {
    if in_bounds(x, y) { seq![cell(cells, x, y)] } else { seq![] }
}

/// The in-bounds neighbours of `(x, y)`: above, below, right, left.
pub open spec fn neighbors_spec(cells: Seq<Field>, x: int, y: int) -> Seq<Field> {
    cell_if_in(cells, x, y + 1) + cell_if_in(cells, x, y - 1) + cell_if_in(cells, x + 1, y)
        + cell_if_in(cells, x - 1, y)
}

/// Two cells that share an edge.
pub open spec fn adjacent(a: Coordinate, b: Coordinate) -> bool {
    (a.x == b.x && (a.y == b.y + 1 || b.y == a.y + 1)) || (a.y == b.y && (a.x == b.x + 1 || b.x
        == a.x + 1))
}

/// Placement test: every covered cell is in bounds and free, and, where a
/// ruin is required, at least one covered cell is a ruin.
pub open spec fn accepts_at(
    cells: Seq<Field>,
    g: Seq<Coordinate>,
    a: Coordinate,
    ruin_required: bool,
) -> bool {
    &&& forall|i: int| 0 <= i < g.len() ==> free_at(cells, a.x + g[i].x, a.y + #[trigger] g[i].y)
    &&& ruin_required ==> exists|i: int|
        0 <= i < g.len() && ruin_at(cells, a.x + g[i].x, a.y + #[trigger] g[i].y)
}

/// Some orientation of `g` (mirrored or not, turned 0 to 3 times) fits at some cell.
pub open spec fn accepts_somewhere(cells: Seq<Field>, g: Seq<Coordinate>, ruin_required: bool) -> bool {
    exists|m: bool, k: nat, i: int|
        k < 4 && 0 <= i < CELLS && #[trigger] accepts_at(cells, oriented(g, m, k), pos_of(i), ruin_required)
}

/// Number of cells of `s` that satisfy `p`.
pub open spec fn count_cells(s: Seq<Field>, p: spec_fn(Field) -> bool) -> nat
    decreases s.len(),
{
    if s.len() == 0 {
        0
    } else {
        count_cells(s.drop_last(), p) + if p(s.last()) { 1nat } else { 0nat }
    }
}

pub proof fn lemma_count_le(s: Seq<Field>, p: spec_fn(Field) -> bool)
    ensures
        count_cells(s, p) <= s.len(),
    decreases s.len(),
{
    if s.len() > 0 {
        lemma_count_le(s.drop_last(), p);
    }
}

pub proof fn lemma_count_update(s: Seq<Field>, i: int, v: Field, p: spec_fn(Field) -> bool)
    requires
        0 <= i < s.len(),
    ensures
        count_cells(s.update(i, v), p) + (if p(s[i]) { 1int } else { 0int }) == count_cells(s, p)
            + (if p(v) { 1int } else { 0int }),
    decreases s.len(),
{
    if i == s.len() - 1 {
        assert(s.update(i, v).drop_last() =~= s.drop_last());
    } else {
        lemma_count_update(s.drop_last(), i, v, p);
        assert(s.update(i, v).drop_last() =~= s.drop_last().update(i, v));
    }
}

/// The cell belongs to area `id`.
pub open spec fn has_id(f: Field, id: usize) -> bool {
    f.cultivation is Some && f.cultivation->Some_0.area_id.0 == id
}

pub open spec fn is_cultivated(f: Field) -> bool {
    f.cultivation is Some
}

pub open spec fn kind_of(f: Field) -> Cultivation {
    f.cultivation->Some_0.cultivation
}

pub open spec fn id_of(f: Field) -> usize {
    f.cultivation->Some_0.area_id.0
}

pub open spec fn cultivated_pred() -> spec_fn(Field) -> bool {
    |f: Field| is_cultivated(f)
}

/// Positions, in cell order, of the cells of area `id`.
pub open spec fn members_of(cells: Seq<Field>, id: usize) -> Seq<Coordinate>
    decreases cells.len(),
{
    if cells.len() == 0 {
        seq![]
    } else if has_id(cells.last(), id) {
        members_of(cells.drop_last(), id).push(cells.last().position)
    } else {
        members_of(cells.drop_last(), id)
    }
}


/// `p` is a walk over cells of area `id`, each step between neighbouring cells.
pub open spec fn id_walk(cells: Seq<Field>, id: usize, p: Seq<int>) -> bool {
    &&& p.len() > 0
    &&& forall|k: int| 0 <= k < p.len() ==> 0 <= #[trigger] p[k] < CELLS && has_id(cells[p[k]], id)
    &&& forall|k: int| 0 <= k < p.len() - 1 ==> adjacent(pos_of(#[trigger] p[k]), pos_of(p[k + 1]))
}

/// A walk through cells of area `id` leads from cell `i` to cell `j`.
pub open spec fn id_linked(cells: Seq<Field>, id: usize, i: int, j: int) -> bool {
    exists|p: Seq<int>| #[trigger] id_walk(cells, id, p) && p[0] == i && p.last() == j
}

/// Every area is edge-connected: any two cells of one area are linked
/// through cells of that area.
#[verifier::opaque]
pub open spec fn areas_connected(cells: Seq<Field>) -> bool {
    forall|i: int, j: int|
        0 <= i < CELLS && 0 <= j < CELLS && is_cultivated(#[trigger] cells[i]) && is_cultivated(#[trigger] cells[j])
            && id_of(cells[i]) == id_of(cells[j]) ==> id_linked(cells, id_of(cells[i]), i, j)
}

/// Connectivity depends only on which cells carry which area.
pub proof fn lemma_areas_connected_same(s: Seq<Field>, t: Seq<Field>)
    requires
        areas_connected(s),
        s.len() == CELLS,
        s.len() == t.len(),
        forall|i: int| 0 <= i < s.len() ==> #[trigger] s[i].cultivation == t[i].cultivation,
    ensures
        areas_connected(t),
{
    reveal(areas_connected);
    assert forall|i: int, j: int|
        0 <= i < CELLS && 0 <= j < CELLS && is_cultivated(#[trigger] t[i]) && is_cultivated(#[trigger] t[j])
            && id_of(t[i]) == id_of(t[j]) implies id_linked(t, id_of(t[i]), i, j) by {
        assert(s[i].cultivation == t[i].cultivation && s[j].cultivation == t[j].cultivation);
        let p = choose|p: Seq<int>| #[trigger] id_walk(s, id_of(s[i]), p) && p[0] == i && p.last() == j;
        assert forall|k: int| 0 <= k < p.len() implies 0 <= #[trigger] p[k] < CELLS && has_id(t[p[k]], id_of(t[i])) by {
            assert(s[p[k]].cultivation == t[p[k]].cultivation);
        }
        assert(id_walk(t, id_of(t[i]), p));
    }
}

/// Terrain of the cell at `c` on a board built with the given mountains and
/// ruins; a ruin wins over a mountain at the same place.
pub open spec fn initial_terrain(mountains: Seq<Coordinate>, ruins: Seq<Coordinate>, c: Coordinate) -> Terrain {
    if ruins.contains(c) {
        Terrain::Ruin
    } else if mountains.contains(c) {
        Terrain::Mountain(true)
    } else {
        Terrain::Normal
    }
}

pub open spec fn default_mountains() -> Seq<Coordinate> {
    seq![
        Coordinate { x: 2, y: 2 },
        Coordinate { x: 3, y: 9 },
        Coordinate { x: 5, y: 5 },
        Coordinate { x: 7, y: 1 },
        Coordinate { x: 8, y: 8 },
    ]
}

pub open spec fn default_ruins() -> Seq<Coordinate> {
    seq![
        Coordinate { x: 1, y: 2 },
        Coordinate { x: 1, y: 8 },
        Coordinate { x: 5, y: 1 },
        Coordinate { x: 5, y: 9 },
        Coordinate { x: 9, y: 2 },
        Coordinate { x: 9, y: 8 },
    ]
}

/// The cells row by row: ascending `y`, then ascending `x`.
pub open spec fn row_major(cells: Seq<Field>) -> Seq<Field> {
    Seq::new(CELLS as nat, |k: int| cells[idx(k % 11, k / 11)])
}

/// Position in row-by-row order of the cell stored at index `i`.
pub open spec fn row_major_pos(i: int) -> int {
    (i % 11) * 11 + i / 11
}

pub proof fn lemma_row_major_index(k: int)
    requires
        0 <= k < CELLS,
    ensures
        in_bounds(k % 11, k / 11),
        0 <= idx(k % 11, k / 11) < CELLS,
        row_major_pos(idx(k % 11, k / 11)) == k,
        forall|j: int| 0 <= j < CELLS && #[trigger] row_major_pos(j) == k ==> j == idx(k % 11, k / 11),
{
    assert(0 <= k % 11 < 11 && 0 <= k / 11 < 11 && (k / 11) * 11 + k % 11 == k) by (nonlinear_arith)
        requires 0 <= k < 121;
    lemma_idx_pos(k % 11, k / 11);
    assert forall|j: int| 0 <= j < CELLS && #[trigger] row_major_pos(j) == k implies j == idx(k % 11, k / 11) by {
        assert(0 <= j % 11 < 11 && 0 <= j / 11 < 11 && (j / 11) * 11 + j % 11 == j) by (nonlinear_arith)
            requires 0 <= j < 121;
        let a = j % 11;
        let b = j / 11;
        assert(a * 11 + b == k);
        assert((a * 11 + b) / 11 == a && (a * 11 + b) % 11 == b) by (nonlinear_arith)
            requires 0 <= a < 11 && 0 <= b < 11;
    }
}

pub open spec fn mountain_pred() -> spec_fn(Field) -> bool {
    |f: Field| f.terrain is Mountain
}

pub open spec fn ruin_pred() -> spec_fn(Field) -> bool {
    |f: Field| f.terrain is Ruin
}

/// Row `n`: the cells with `y == n`, by ascending `x`.
pub open spec fn row_spec(cells: Seq<Field>, n: int) -> Seq<Field> {
    if 0 <= n < SIZE { Seq::new(11, |x: int| cell(cells, x, n)) } else { seq![] }
}

/// Column `n`: the cells with `x == n`, by ascending `y`.
pub open spec fn column_spec(cells: Seq<Field>, n: int) -> Seq<Field> {
    if 0 <= n < SIZE { Seq::new(11, |y: int| cell(cells, n, y)) } else { seq![] }
}

/// First `x` of diagonal `n` (the cells with `x + y == n`).
pub open spec fn diagonal_start(n: int) -> int {
    if n < 10 { n } else { 10 }
}

pub open spec fn diagonal_len(n: int) -> int {
    if n <= 10 { n + 1 } else if n <= 20 { 21 - n } else { 0 }
}

/// Diagonal `n`: the cells with `x + y == n`, by descending `x`.
pub open spec fn diagonal_spec(cells: Seq<Field>, n: int) -> Seq<Field> {
    Seq::new(diagonal_len(n) as nat, |k: int| cell(cells, diagonal_start(n) - k, n - diagonal_start(n) + k))
}

/// The board: its cells, the registry of connected areas, and the counter
/// that hands out area identifiers.
#[derive(Debug)]
pub struct Grid {
    pub(crate) area_infos: HashMap<usize, AreaInfo>,
    pub(crate) area_counter: usize,
    pub(crate) inner: Vec<Field>,
}

impl Grid {
    /// The cells, in ascending coordinate order.
    pub open(crate) spec fn cells(&self) -> Seq<Field> {
        self.inner@
    }

    /// The area registry, by identifier.
    pub open(crate) spec fn areas(&self) -> Map<usize, AreaInfo> {
        self.area_infos@
    }

    /// The identifier that the next new area gets.
    pub open(crate) spec fn next_id(&self) -> nat {
        self.area_counter as nat
    }

    /// The cells lie in coordinate order and know their own position.
    pub open spec fn layout_ok(&self) -> bool {
        &&& self.cells().len() == CELLS
        &&& forall|i: int| 0 <= i < CELLS ==> (#[trigger] self.cells()[i]).position == pos_of(i)
    }

    /// The registry agrees with the cells: each cultivated cell's area is
    /// registered with the cell's kind; each registered area lists exactly its
    /// cells, in order, and is not empty; identifiers lie below the counter;
    /// two neighbouring cells of one kind belong to one area; and every area
    /// is edge-connected. So the areas are the maximal connected regions of
    /// one kind.
    pub open spec fn wf(&self) -> bool {
        let cells = self.cells();
        &&& self.layout_ok()
        &&& 1 <= self.next_id() <= 1 + count_cells(cells, cultivated_pred())
        &&& forall|i: int| 0 <= i < CELLS && is_cultivated(#[trigger] cells[i]) ==> {
            &&& self.areas().contains_key(id_of(cells[i]))
            &&& self.areas()[id_of(cells[i])].kind == kind_of(cells[i])
            &&& 1 <= id_of(cells[i]) < self.next_id()
        }
        &&& forall|id: usize| #[trigger] self.areas().contains_key(id) ==> {
            &&& self.areas()[id].field_coords@ == members_of(cells, id)
            &&& members_of(cells, id).len() > 0
        }
        &&& forall|i: int, j: int|
            0 <= i < CELLS && 0 <= j < CELLS && is_cultivated(#[trigger] cells[i]) && is_cultivated(
                #[trigger] cells[j],
            ) && kind_of(cells[i]) == kind_of(cells[j]) && adjacent(pos_of(i), pos_of(j))
                ==> id_of(cells[i]) == id_of(cells[j])
        &&& areas_connected(cells)
    }

    /// A board with mountains (coin not collected) and ruins at the given
    /// places and nothing cultivated.
    pub fn initialize(ruins: &Vec<Coordinate>, mountains: &Vec<Coordinate>) -> (r: Grid)
        requires
            forall|k: int| 0 <= k < ruins@.len() ==> in_bounds(#[trigger] ruins@[k].x as int, ruins@[k].y as int),
            forall|k: int| 0 <= k < mountains@.len() ==> in_bounds(#[trigger] mountains@[k].x as int, mountains@[k].y as int),
        ensures
            r.wf(),
            r.areas().is_empty(),
            r.next_id() == 1,
            forall|i: int| 0 <= i < CELLS ==> (#[trigger] r.cells()[i]).cultivation.is_none()
                && r.cells()[i].terrain == initial_terrain(mountains@, ruins@, pos_of(i)),
    {
        let mut inner: Vec<Field> = Vec::new();
        let mut x: usize = 0;
        while x < SIZE
            invariant
                x <= SIZE,
                inner@.len() == x * 11,
                forall|i: int| 0 <= i < inner@.len() ==> #[trigger] inner@[i] == (Field { cultivation: None, terrain: Terrain::Normal, position: pos_of(i) }),
            decreases SIZE - x,
        {
            let mut y: usize = 0;
            while y < SIZE
                invariant
                    x < SIZE,
                    y <= SIZE,
                    inner@.len() == x * 11 + y,
                    forall|i: int| 0 <= i < inner@.len() ==> #[trigger] inner@[i] == (Field { cultivation: None, terrain: Terrain::Normal, position: pos_of(i) }),
                decreases SIZE - y,
            {
                proof {
                    lemma_idx_pos(x as int, y as int);
                }
                inner.push(Field::new(Coordinate::from_indices(x, y)));
                y += 1;
            }
            x += 1;
        }
        let mut k: usize = 0;
        while k < mountains.len()
            invariant
                k <= mountains@.len(),
                inner@.len() == CELLS,
                forall|k: int| 0 <= k < mountains@.len() ==> in_bounds(#[trigger] mountains@[k].x as int, mountains@[k].y as int),
                forall|i: int| 0 <= i < CELLS ==> (#[trigger] inner@[i]).cultivation.is_none() && inner@[i].position == pos_of(i)
                    && inner@[i].terrain == initial_terrain(mountains@.take(k as int), seq![], pos_of(i)),
            decreases mountains@.len() - k,
        {
            let m = mountains[k];
            proof {
                lemma_idx_pos(m.x as int, m.y as int);
            }
            let i = (m.x as usize) * SIZE + (m.y as usize);
            let ghost before = inner@;
            let mut f = inner[i];
            f.terrain = Terrain::Mountain(true);
            inner.set(i, f);
            proof {
                assert(mountains@.take(k + 1) =~= mountains@.take(k as int).push(m));
                assert forall|j: int| 0 <= j < CELLS implies (#[trigger] inner@[j]).terrain == initial_terrain(mountains@.take(k + 1), seq![], pos_of(j)) by {
                    lemma_pos_idx(j);
                    if j == i {
                        assert(pos_of(j) == m);
                        assert(mountains@.take(k + 1)[k as int] == m);
                    } else {
                        assert(pos_of(j) != m);
                        assert(inner@[j] == before[j]);
                        assert(mountains@.take(k + 1).contains(pos_of(j)) == mountains@.take(k as int).contains(pos_of(j))) by {
                            if mountains@.take(k + 1).contains(pos_of(j)) {
                                let w = choose|w: int| 0 <= w < k + 1 && #[trigger] mountains@.take(k + 1)[w] == pos_of(j);
                                assert(mountains@.take(k as int)[w] == pos_of(j));
                            }
                        }
                    }
                }
            }
            k += 1;
        }
        assert(mountains@.take(k as int) =~= mountains@);
        let mut k: usize = 0;
        while k < ruins.len()
            invariant
                k <= ruins@.len(),
                inner@.len() == CELLS,
                forall|k: int| 0 <= k < ruins@.len() ==> in_bounds(#[trigger] ruins@[k].x as int, ruins@[k].y as int),
                forall|i: int| 0 <= i < CELLS ==> (#[trigger] inner@[i]).cultivation.is_none() && inner@[i].position == pos_of(i)
                    && inner@[i].terrain == initial_terrain(mountains@, ruins@.take(k as int), pos_of(i)),
            decreases ruins@.len() - k,
        {
            let m = ruins[k];
            proof {
                lemma_idx_pos(m.x as int, m.y as int);
            }
            let i = (m.x as usize) * SIZE + (m.y as usize);
            let ghost before = inner@;
            let mut f = inner[i];
            f.terrain = Terrain::Ruin;
            inner.set(i, f);
            proof {
                assert(ruins@.take(k + 1) =~= ruins@.take(k as int).push(m));
                assert forall|j: int| 0 <= j < CELLS implies (#[trigger] inner@[j]).terrain == initial_terrain(mountains@, ruins@.take(k + 1), pos_of(j)) by {
                    lemma_pos_idx(j);
                    if j == i {
                        assert(pos_of(j) == m);
                        assert(ruins@.take(k + 1)[k as int] == m);
                    } else {
                        assert(pos_of(j) != m);
                        assert(inner@[j] == before[j]);
                        assert(ruins@.take(k + 1).contains(pos_of(j)) == ruins@.take(k as int).contains(pos_of(j))) by {
                            if ruins@.take(k + 1).contains(pos_of(j)) {
                                let w = choose|w: int| 0 <= w < k + 1 && #[trigger] ruins@.take(k + 1)[w] == pos_of(j);
                                assert(ruins@.take(k as int)[w] == pos_of(j));
                            }
                        }
                    }
                }
            }
            k += 1;
        }
        assert(ruins@.take(k as int) =~= ruins@);
        let grid = Grid { area_infos: HashMap::new(), area_counter: 1, inner };
        proof {
            reveal(areas_connected);
            assert forall|id: usize| #[trigger] grid.areas().contains_key(id) implies false by {}
        }
        grid
    }

    /// The board of a new game: five mountains and six ruins at fixed places.
    pub fn new() -> (r: Grid)
        ensures
            r.wf(),
            r.areas().is_empty(),
            r.next_id() == 1,
            forall|i: int| 0 <= i < CELLS ==> (#[trigger] r.cells()[i]).cultivation.is_none()
                && r.cells()[i].terrain == initial_terrain(default_mountains(), default_ruins(), pos_of(i)),
    {
        let mountains: Vec<Coordinate> = vec![
            Coordinate { x: 2, y: 2 },
            Coordinate { x: 3, y: 9 },
            Coordinate { x: 5, y: 5 },
            Coordinate { x: 7, y: 1 },
            Coordinate { x: 8, y: 8 },
        ];
        let ruins: Vec<Coordinate> = vec![
            Coordinate { x: 1, y: 2 },
            Coordinate { x: 1, y: 8 },
            Coordinate { x: 5, y: 1 },
            Coordinate { x: 5, y: 9 },
            Coordinate { x: 9, y: 2 },
            Coordinate { x: 9, y: 8 },
        ];
        assert(mountains@ =~= default_mountains());
        assert(ruins@ =~= default_ruins());
        Grid::initialize(&ruins, &mountains)
    }

    /// Every cell, in ascending coordinate order.
    pub fn all(&self) -> (r: Vec<Field>)
        ensures
            r@ == self.cells(),
    {
        let mut r: Vec<Field> = Vec::new();
        let mut i: usize = 0;
        while i < self.inner.len()
            invariant
                i <= self.cells().len(),
                r@ == self.cells().take(i as int),
            decreases self.cells().len() - i,
        {
            r.push(self.inner[i]);
            i += 1;
            assert(r@ =~= self.cells().take(i as int));
        }
        assert(self.cells().take(i as int) =~= self.cells());
        r
    }

    /// The cells with `y == nth`, by ascending `x`; none past the edge.
    pub fn row(&self, nth: usize) -> (r: Vec<Field>)
        requires
            self.layout_ok(),
        ensures
            r@ == row_spec(self.cells(), nth as int),
    {
        let mut r: Vec<Field> = Vec::new();
        if nth >= SIZE {
            assert(r@ =~= row_spec(self.cells(), nth as int));
            return r;
        }
        let mut x: usize = 0;
        while x < SIZE
            invariant
                self.layout_ok(),
                nth < SIZE,
                x <= SIZE,
                r@ == row_spec(self.cells(), nth as int).take(x as int),
            decreases SIZE - x,
        {
            r.push(self.cell_at(x, nth));
            x += 1;
            assert(r@ =~= row_spec(self.cells(), nth as int).take(x as int));
        }
        assert(row_spec(self.cells(), nth as int).take(11) =~= row_spec(self.cells(), nth as int));
        r
    }

    /// The cells with `x == nth`, by ascending `y`; none past the edge.
    pub fn column(&self, nth: usize) -> (r: Vec<Field>)
        requires
            self.layout_ok(),
        ensures
            r@ == column_spec(self.cells(), nth as int),
    {
        let mut r: Vec<Field> = Vec::new();
        if nth >= SIZE {
            assert(r@ =~= column_spec(self.cells(), nth as int));
            return r;
        }
        let mut y: usize = 0;
        while y < SIZE
            invariant
                self.layout_ok(),
                nth < SIZE,
                y <= SIZE,
                r@ == column_spec(self.cells(), nth as int).take(y as int),
            decreases SIZE - y,
        {
            r.push(self.cell_at(nth, y));
            y += 1;
            assert(r@ =~= column_spec(self.cells(), nth as int).take(y as int));
        }
        assert(column_spec(self.cells(), nth as int).take(11) =~= column_spec(self.cells(), nth as int));
        r
    }

    /// Every row, by ascending `y`.
    pub fn rows(&self) -> (r: Vec<Vec<Field>>)
        requires
            self.layout_ok(),
        ensures
            r@.len() == SIZE,
            forall|n: int| 0 <= n < SIZE ==> (#[trigger] r@[n])@ == row_spec(self.cells(), n),
    {
        let mut r: Vec<Vec<Field>> = Vec::new();
        let mut n: usize = 0;
        while n < SIZE
            invariant
                self.layout_ok(),
                n <= SIZE,
                r@.len() == n,
                forall|k: int| 0 <= k < n ==> (#[trigger] r@[k])@ == row_spec(self.cells(), k),
            decreases SIZE - n,
        {
            r.push(self.row(n));
            n += 1;
        }
        r
    }

    /// Every column, by ascending `x`.
    pub fn columns(&self) -> (r: Vec<Vec<Field>>)
        requires
            self.layout_ok(),
        ensures
            r@.len() == SIZE,
            forall|n: int| 0 <= n < SIZE ==> (#[trigger] r@[n])@ == column_spec(self.cells(), n),
    {
        let mut r: Vec<Vec<Field>> = Vec::new();
        let mut n: usize = 0;
        while n < SIZE
            invariant
                self.layout_ok(),
                n <= SIZE,
                r@.len() == n,
                forall|k: int| 0 <= k < n ==> (#[trigger] r@[k])@ == column_spec(self.cells(), k),
            decreases SIZE - n,
        {
            r.push(self.column(n));
            n += 1;
        }
        r
    }

    /// The cells with `x + y == nth`, from the left border towards the
    /// bottom: by descending `x`. Empty for `nth > 20`.
    pub fn nth_diagonal(&self, nth: usize) -> (r: Vec<Field>)
        requires
            self.layout_ok(),
        ensures
            r@ == diagonal_spec(self.cells(), nth as int),
    {
        let mut r: Vec<Field> = Vec::new();
        if nth > 2 * SIZE - 2 {
            assert(r@ =~= diagonal_spec(self.cells(), nth as int));
            return r;
        }
        let start: usize = if nth < SIZE - 1 { nth } else { SIZE - 1 };
        let len: usize = if nth <= SIZE - 1 { nth + 1 } else { 2 * SIZE - 1 - nth };
        let mut k: usize = 0;
        while k < len
            invariant
                self.layout_ok(),
                nth <= 20,
                start == diagonal_start(nth as int),
                len == diagonal_len(nth as int),
                k <= len,
                r@ == diagonal_spec(self.cells(), nth as int).take(k as int),
            decreases len - k,
        {
            r.push(self.cell_at(start - k, nth - start + k));
            k += 1;
            assert(r@ =~= diagonal_spec(self.cells(), nth as int).take(k as int));
        }
        assert(diagonal_spec(self.cells(), nth as int).take(len as int) =~= diagonal_spec(self.cells(), nth as int));
        r
    }

    /// Diagonals `0` to `20`: every cell lies on exactly one of them.
    pub fn diagonals(&self) -> (r: Vec<Vec<Field>>)
        requires
            self.layout_ok(),
        ensures
            r@.len() == 2 * SIZE - 1,
            forall|n: int| 0 <= n < 2 * SIZE - 1 ==> (#[trigger] r@[n])@ == diagonal_spec(self.cells(), n),
    {
        let mut r: Vec<Vec<Field>> = Vec::new();
        let mut n: usize = 0;
        while n < 2 * SIZE - 1
            invariant
                self.layout_ok(),
                n <= 2 * SIZE - 1,
                r@.len() == n,
                forall|k: int| 0 <= k < n ==> (#[trigger] r@[k])@ == diagonal_spec(self.cells(), k),
            decreases 2 * SIZE - 1 - n,
        {
            r.push(self.nth_diagonal(n));
            n += 1;
        }
        r
    }

    /// The mountain cells, row by row.
    pub fn mountains(&self) -> (r: Vec<Field>)
        requires
            self.layout_ok(),
        ensures
            r@ == row_major(self.cells()).filter(mountain_pred()),
    {
        let ghost rm = row_major(self.cells());
        let mut r: Vec<Field> = Vec::new();
        let mut k: usize = 0;
        while k < CELLS
            invariant
                self.layout_ok(),
                rm == row_major(self.cells()),
                k <= CELLS,
                r@ == rm.take(k as int).filter(mountain_pred()),
            decreases CELLS - k,
        {
            assert(rm.take(k + 1).drop_last() =~= rm.take(k as int));
            reveal(Seq::filter);
            proof {
                lemma_row_major_index(k as int);
            }
            let f = self.cell_at(k % SIZE, k / SIZE);
            assert(f == rm[k as int]);
            assert(rm.take(k + 1).last() == f);
            if f.terrain.is_mountain() {
                r.push(f);
            }
            k += 1;
        }
        assert(rm.take(k as int) =~= rm);
        r
    }

    /// The ruin cells, row by row.
    pub fn ruins(&self) -> (r: Vec<Field>)
        requires
            self.layout_ok(),
        ensures
            r@ == row_major(self.cells()).filter(ruin_pred()),
    {
        let ghost rm = row_major(self.cells());
        let mut r: Vec<Field> = Vec::new();
        let mut k: usize = 0;
        while k < CELLS
            invariant
                self.layout_ok(),
                rm == row_major(self.cells()),
                k <= CELLS,
                r@ == rm.take(k as int).filter(ruin_pred()),
            decreases CELLS - k,
        {
            assert(rm.take(k + 1).drop_last() =~= rm.take(k as int));
            reveal(Seq::filter);
            proof {
                lemma_row_major_index(k as int);
            }
            let f = self.cell_at(k % SIZE, k / SIZE);
            assert(f == rm[k as int]);
            assert(rm.take(k + 1).last() == f);
            if f.terrain.is_ruin() {
                r.push(f);
            }
            k += 1;
        }
        assert(rm.take(k as int) =~= rm);
        r
    }

    pub fn is_valid_coord(coord: &Coordinate) -> (r: bool)
        ensures
            r == in_bounds(coord.x as int, coord.y as int),
    {
        !(coord.x < 0 || coord.x >= SIZE as i32 || coord.y < 0 || coord.y >= SIZE as i32)
    }

    fn index(coord: &Coordinate) -> (r: Result<usize, ()>)
        ensures
            match r {
                Ok(i) => in_bounds(coord.x as int, coord.y as int) && i == idx(
                    coord.x as int,
                    coord.y as int,
                ) && i < CELLS,
                Err(_) => !in_bounds(coord.x as int, coord.y as int),
            },
    {
        if !Self::is_valid_coord(coord) {
            Err(())
        } else {
            proof {
                lemma_idx_pos(coord.x as int, coord.y as int);
            }
            Ok((coord.x as usize) * SIZE + (coord.y as usize))
        }
    }

    /// The cell at `coord`, or `Err` out of bounds.
    pub fn at(&self, coord: &Coordinate) -> (r: Result<&Field, ()>)
        requires
            self.layout_ok(),
        ensures
            match r {
                Ok(f) => in_bounds(coord.x as int, coord.y as int) && *f == cell(
                    self.cells(),
                    coord.x as int,
                    coord.y as int,
                ),
                Err(_) => !in_bounds(coord.x as int, coord.y as int),
            },
    {
        match Self::index(coord) {
            Ok(i) => Ok(&self.inner[i]),
            Err(e) => Err(e),
        }
    }

    /// The cell at `(x, y)`, which must lie in the grid.
    pub(crate) fn cell_at(&self, x: usize, y: usize) -> (r: Field)
        requires
            self.layout_ok(),
            x < SIZE,
            y < SIZE,
        ensures
            r == cell(self.cells(), x as int, y as int),
    {
        proof {
            lemma_idx_pos(x as int, y as int);
        }
        self.inner[x * SIZE + y]
    }

    pub fn is_ruin(&self, coord: &Coordinate) -> (r: bool)
        requires
            self.layout_ok(),
        ensures
            r == ruin_at(self.cells(), coord.x as int, coord.y as int),
    {
        match Self::index(coord) {
            Ok(i) => self.inner[i].is_ruin(),
            Err(_) => false,
        }
    }

    pub fn is_free(&self, coord: &Coordinate) -> (r: bool)
        requires
            self.layout_ok(),
        ensures
            r == free_at(self.cells(), coord.x as int, coord.y as int),
    {
        match Self::index(coord) {
            Ok(i) => self.inner[i].is_free(),
            Err(_) => false,
        }
    }

    /// Like `is_free`, on a point given by wide integers.
    pub(crate) fn is_free_wide(&self, x: i64, y: i64) -> (r: bool)
        requires
            self.layout_ok(),
        ensures
            r == free_at(self.cells(), x as int, y as int),
    {
        if 0 <= x && x < SIZE as i64 && 0 <= y && y < SIZE as i64 {
            self.cell_at(x as usize, y as usize).is_free()
        } else {
            false
        }
    }

    /// Like `is_ruin`, on a point given by wide integers.
    pub(crate) fn is_ruin_wide(&self, x: i64, y: i64) -> (r: bool)
        requires
            self.layout_ok(),
        ensures
            r == ruin_at(self.cells(), x as int, y as int),
    {
        if 0 <= x && x < SIZE as i64 && 0 <= y && y < SIZE as i64 {
            self.cell_at(x as usize, y as usize).is_ruin()
        } else {
            false
        }
    }

    /// The neighbours of `coord` that lie in the grid: above, below, right, left.
    pub fn neighbors(&self, coord: &Coordinate) -> (r: Vec<Field>)
        requires
            self.layout_ok(),
        ensures
            r@ == neighbors_spec(self.cells(), coord.x as int, coord.y as int),
    {
        let x = coord.x as i64;
        let y = coord.y as i64;
        let mut r: Vec<Field> = Vec::new();
        let ghost cells = self.cells();
        if 0 <= x && x < 11 && 0 <= y + 1 && y + 1 < 11 {
            r.push(self.cell_at(x as usize, (y + 1) as usize));
        }
        assert(r@ =~= cell_if_in(cells, x as int, y + 1));
        let ghost r1 = r@;
        if 0 <= x && x < 11 && 0 <= y - 1 && y - 1 < 11 {
            r.push(self.cell_at(x as usize, (y - 1) as usize));
        }
        assert(r@ =~= r1 + cell_if_in(cells, x as int, y - 1));
        let ghost r2 = r@;
        if 0 <= x + 1 && x + 1 < 11 && 0 <= y && y < 11 {
            r.push(self.cell_at((x + 1) as usize, y as usize));
        }
        assert(r@ =~= r2 + cell_if_in(cells, x + 1, y as int));
        let ghost r3 = r@;
        if 0 <= x - 1 && x - 1 < 11 && 0 <= y && y < 11 {
            r.push(self.cell_at((x - 1) as usize, y as usize));
        }
        assert(r@ =~= r3 + cell_if_in(cells, x - 1, y as int));
        r
    }

    /// Whether `geom`, anchored at `coord`, covers only free cells of the grid,
    /// and at least one ruin where `ruin_required` holds.
    pub fn accepts_geometry_at(&self, geom: &Geometry, coord: &Coordinate, ruin_required: bool) -> (r: bool)
        requires
            self.layout_ok(),
        ensures
            r == accepts_at(self.cells(), geom@, *coord, ruin_required),
    {
        let cells = geom.cells();
        let mut on_ruin = false;
        let mut i: usize = 0;
        while i < cells.len()
            invariant
                self.layout_ok(),
                cells@ == geom@,
                i <= cells@.len(),
                forall|j: int| 0 <= j < i ==> free_at(self.cells(), coord.x + cells@[j].x, coord.y + #[trigger] cells@[j].y),
                on_ruin == exists|j: int| 0 <= j < i && ruin_at(self.cells(), coord.x + cells@[j].x, coord.y + #[trigger] cells@[j].y),
            decreases cells@.len() - i,
        {
            let p = cells[i];
            let x = coord.x as i64 + p.x as i64;
            let y = coord.y as i64 + p.y as i64;
            if self.is_ruin_wide(x, y) {
                on_ruin = true;
            }
            if !self.is_free_wide(x, y) {
                return false;
            }
            i += 1;
        }
        !ruin_required || on_ruin
    }

    /// Whether `geom`, in any of its eight orientations, fits somewhere on the grid.
    pub fn accepts_geometry(&self, geom: &Geometry, ruin_required: bool) -> (r: bool)
        requires
            self.layout_ok(),
            geom.wf(),
        ensures
            r == accepts_somewhere(self.cells(), geom@, ruin_required),
    {
        let mut mirrored = geom.duplicate();
        mirrored.mirror();
        let mut pass: usize = 0;
        while pass < 2
            invariant
                self.layout_ok(),
                geom.wf(),
                mirrored.wf(),
                mirrored@ == oriented(geom@, true, 0),
                pass <= 2,
                forall|m: bool, k: nat, i: int|
                    (if m { 1int } else { 0int }) < pass && k < 4 && 0 <= i < CELLS
                        ==> !#[trigger] accepts_at(self.cells(), oriented(geom@, m, k), pos_of(i), ruin_required),
            decreases 2 - pass,
        {
            let ghost m = pass == 1;
            let mut g = if pass == 0 { geom.duplicate() } else { mirrored.duplicate() };
            let mut turn: usize = 0;
            while turn < 4
                invariant
                    self.layout_ok(),
                    pass < 2,
                    m == (pass == 1),
                    g.wf(),
                    turn <= 4,
                    g@ == oriented(geom@, m, turn as nat),
                    forall|mm: bool, k: nat, i: int|
                        (if mm { 1int } else { 0int }) < pass && k < 4 && 0 <= i < CELLS
                            ==> !#[trigger] accepts_at(self.cells(), oriented(geom@, mm, k), pos_of(i), ruin_required),
                    forall|k: nat, i: int|
                        k < turn && 0 <= i < CELLS
                            ==> !#[trigger] accepts_at(self.cells(), oriented(geom@, m, k), pos_of(i), ruin_required),
                decreases 4 - turn,
            {
                let mut i: usize = 0;
                while i < CELLS
                    invariant
                        self.layout_ok(),
                        i <= CELLS,
                        pass < 2,
                        m == (pass == 1),
                        g.wf(),
                        turn < 4,
                        g@ == oriented(geom@, m, turn as nat),
                        forall|mm: bool, k: nat, i: int|
                            (if mm { 1int } else { 0int }) < pass && k < 4 && 0 <= i < CELLS
                                ==> !#[trigger] accepts_at(self.cells(), oriented(geom@, mm, k), pos_of(i), ruin_required),
                        forall|k: nat, i: int|
                            k < turn && 0 <= i < CELLS
                                ==> !#[trigger] accepts_at(self.cells(), oriented(geom@, m, k), pos_of(i), ruin_required),
                        forall|j: int|
                            0 <= j < i ==> !#[trigger] accepts_at(self.cells(), g@, pos_of(j), ruin_required),
                    decreases CELLS - i,
                {
                    let pos = self.inner[i].position;
                    if self.accepts_geometry_at(&g, &pos, ruin_required) {
                        assert(accepts_at(self.cells(), oriented(geom@, m, turn as nat), pos_of(i as int), ruin_required));
                        return true;
                    }
                    i += 1;
                }
                g.rotate_clockwise();
                turn += 1;
                assert(g@ == oriented(geom@, m, turn as nat));
            }
            pass += 1;
        }
        assert forall|m: bool, k: nat, i: int|
            k < 4 && 0 <= i < CELLS implies !#[trigger] accepts_at(self.cells(), oriented(geom@, m, k), pos_of(i), ruin_required) by {
            assert((if m { 1int } else { 0int }) < pass);
        }
        false
    }
}


/// A placement that puts some offset outside the grid is rejected.
pub proof fn lemma_rejects_out_of_bounds(cells: Seq<Field>, g: Seq<Coordinate>, a: Coordinate, ruin_required: bool, k: int)
    requires
        0 <= k < g.len(),
        !in_bounds(a.x + g[k].x, a.y + g[k].y),
    ensures
        !accepts_at(cells, g, a, ruin_required),
{
    assert(!free_at(cells, a.x + g[k].x, a.y + g[k].y));
}

/// A placement that covers a mountain or a cultivated cell is rejected.
pub proof fn lemma_rejects_taken(cells: Seq<Field>, g: Seq<Coordinate>, a: Coordinate, ruin_required: bool, k: int)
    requires
        0 <= k < g.len(),
        in_bounds(a.x + g[k].x, a.y + g[k].y),
        cell(cells, a.x + g[k].x, a.y + g[k].y).terrain is Mountain
            || cell(cells, a.x + g[k].x, a.y + g[k].y).cultivation is Some,
    ensures
        !accepts_at(cells, g, a, ruin_required),
{
    assert(!free_at(cells, a.x + g[k].x, a.y + g[k].y));
}

/// Where a ruin is required, an accepted placement covers a ruin; where it is
/// not, ruins play no part in the decision.
pub proof fn lemma_ruin_requirement(cells: Seq<Field>, g: Seq<Coordinate>, a: Coordinate)
    ensures
        accepts_at(cells, g, a, true) ==> exists|k: int| 0 <= k < g.len() && ruin_at(cells, a.x + g[k].x, a.y + #[trigger] g[k].y),
        accepts_at(cells, g, a, false) == forall|k: int| 0 <= k < g.len() ==> free_at(cells, a.x + g[k].x, a.y + #[trigger] g[k].y),
        accepts_at(cells, g, a, true) ==> accepts_at(cells, g, a, false),
{
}

/// On a board without a free cell no geometry fits anywhere.
pub proof fn lemma_full_board_rejects(cells: Seq<Field>, g: Seq<Coordinate>, ruin_required: bool)
    requires
        g.len() > 0,
        cells.len() == CELLS,
        forall|i: int| 0 <= i < CELLS ==> !field_free(#[trigger] cells[i]),
    ensures
        !accepts_somewhere(cells, g, ruin_required),
{
    assert forall|m: bool, k: nat, i: int| k < 4 && 0 <= i < CELLS implies !#[trigger] accepts_at(cells, oriented(g, m, k), pos_of(i), ruin_required) by {
        let o = oriented(g, m, k);
        lemma_oriented_len(g, m, k);
        let a = pos_of(i);
        if in_bounds(a.x + o[0].x, a.y + o[0].y) {
            lemma_idx_pos(a.x + o[0].x, a.y + o[0].y);
            assert(!field_free(cells[idx(a.x + o[0].x, a.y + o[0].y)]));
        }
        assert(!free_at(cells, a.x + o[0].x, a.y + o[0].y));
    }
}

proof fn lemma_oriented_len(g: Seq<Coordinate>, m: bool, k: nat)
    ensures
        oriented(g, m, k).len() == g.len(),
    decreases k,
{
    if k > 0 {
        lemma_oriented_len(g, m, (k - 1) as nat);
    }
}


/// `p` is a walk over free cells, each step between neighbouring cells.
pub open spec fn free_walk(cells: Seq<Field>, p: Seq<int>) -> bool {
    &&& p.len() > 0
    &&& forall|k: int| 0 <= k < p.len() ==> 0 <= #[trigger] p[k] < CELLS && field_free(cells[p[k]])
    &&& forall|k: int| 0 <= k < p.len() - 1 ==> adjacent(pos_of(#[trigger] p[k]), pos_of(p[k + 1]))
}

/// A walk over free cells leads from cell `i` to cell `j`.
pub open spec fn free_linked(cells: Seq<Field>, i: int, j: int) -> bool {
    exists|p: Seq<int>| #[trigger] free_walk(cells, p) && p[0] == i && p.last() == j
}

/// The free cells reachable from cell `i` through free cells.
pub open spec fn free_component(cells: Seq<Field>, i: int) -> Set<int> {
    Set::new(|j: int| 0 <= j < CELLS && free_linked(cells, i, j))
}

/// A connected geometry of distinct offsets fits nowhere when every region
/// of connected free cells is smaller than it.
pub proof fn lemma_dead_card(cells: Seq<Field>, g: Seq<Coordinate>, ruin_required: bool)
    requires
        cells.len() == CELLS,
        valid_offsets(g),
        g.no_duplicates(),
        forall|i: int| 0 <= i < CELLS && field_free(cells[i]) ==> (#[trigger] free_component(cells, i)).len() < g.len(),
    ensures
        !accepts_somewhere(cells, g, ruin_required),
{
    assert forall|m: bool, k: nat, i0: int| k < 4 && 0 <= i0 < CELLS
        implies !#[trigger] accepts_at(cells, oriented(g, m, k), pos_of(i0), ruin_required) by {
        lemma_dead_card_at(cells, g, m, k, pos_of(i0), ruin_required);
    }
}

proof fn lemma_dead_card_at(cells: Seq<Field>, g: Seq<Coordinate>, m: bool, k: nat, a: Coordinate, ruin_required: bool)
    requires
        cells.len() == CELLS,
        valid_offsets(g),
        g.no_duplicates(),
        forall|i: int| 0 <= i < CELLS && field_free(cells[i]) ==> (#[trigger] free_component(cells, i)).len() < g.len(),
    ensures
        !accepts_at(cells, oriented(g, m, k), a, ruin_required),
{
    if accepts_at(cells, oriented(g, m, k), a, ruin_required) {
        let o = oriented(g, m, k);
        lemma_oriented_valid(g, m, k);
        let q = Seq::new(o.len(), |t: int| idx(a.x + o[t].x, a.y + o[t].y));
        assert forall|t: int| 0 <= t < o.len() implies 0 <= #[trigger] q[t] < CELLS && field_free(cells[q[t]])
            && pos_of(q[t]).x == a.x + o[t].x && pos_of(q[t]).y == a.y + o[t].y by {
            assert(free_at(cells, a.x + o[t].x, a.y + o[t].y));
            lemma_idx_pos(a.x + o[t].x, a.y + o[t].y);
        }
        assert(q.no_duplicates()) by {
            assert forall|u: int, v: int| 0 <= u < q.len() && 0 <= v < q.len() && u != v implies q[u] != q[v] by {
                assert(o[u] != o[v]);
                assert(pos_of(q[u]).x == a.x + o[u].x && pos_of(q[v]).x == a.x + o[v].x);
            }
        }
        let c0 = q[0];
        let comp = free_component(cells, c0);
        assert forall|t: int| 0 <= t < q.len() implies comp.contains(#[trigger] q[t]) by {
            reveal(connected_offsets);
            assert(walk_reaches(o, t));
            let p = choose|p: Seq<int>| #[trigger] offset_walk(o, p) && p.last() == t;
            let w = Seq::new(p.len(), |z: int| q[p[z]]);
            assert forall|z: int| 0 <= z < w.len() implies 0 <= #[trigger] w[z] < CELLS && field_free(cells[w[z]]) by {
                assert(0 <= p[z] < o.len());
            }
            assert forall|z: int| 0 <= z < w.len() - 1 implies adjacent(pos_of(#[trigger] w[z]), pos_of(w[z + 1])) by {
                assert(0 <= p[z] < o.len() && 0 <= p[z + 1] < o.len());
                assert(adjacent(o[p[z]], o[p[z + 1]]));
            }
            assert(free_walk(cells, w) && w[0] == c0 && w.last() == q[t]);
        }
        let full = vstd::set_lib::set_int_range(0, CELLS as int);
        vstd::set_lib::lemma_int_range(0, CELLS as int);
        assert(comp.subset_of(full));
        vstd::set_lib::lemma_len_subset(comp, full);
        assert(q.to_set().subset_of(comp));
        q.unique_seq_to_set();
        vstd::set_lib::lemma_len_subset(q.to_set(), comp);
        assert(field_free(cells[c0]));
        assert(comp.len() < g.len());
    }
}

} // verus!
