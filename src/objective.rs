//! The scoring rules, each a function from a board to points.
use vstd::prelude::*;
use crate::grid::{Grid, CELLS, SIZE, cell, row_spec, column_spec, diagonal_spec, free_at, in_bounds, idx, lemma_idx_pos, lemma_pos_idx, pos_of};
use crate::terrain::{AreaID, Cultivation, Field, field_free, field_has};
use crate::ranking::{area_ranking, is_ranking};
use crate::area::{area_touches, nb_of};

verus! {

/// Points scored by an objective.
#[derive(Debug, Default, Clone, Copy, PartialEq, Eq, Structural)]
pub struct Score(pub usize);

impl Score {
    pub fn value(&self) -> (r: usize)
        ensures
            r == self.0,
    {
        self.0
    }

    /// Adds `points`.
    pub fn add_points(&mut self, points: usize)
        requires
            old(self).0 + points <= usize::MAX,
        ensures
            final(self).0 == old(self).0 + points,
    {
        self.0 = self.0 + points;
    }
}

/// Sum of `w` over the fields of `s`.
pub open spec fn sum_cells(s: Seq<Field>, w: spec_fn(Field) -> nat) -> nat
    decreases s.len(),
{
    if s.len() == 0 {
        0
    } else {
        sum_cells(s.drop_last(), w) + w(s.last())
    }
}

pub proof fn lemma_sum_bound(s: Seq<Field>, w: spec_fn(Field) -> nat, b: nat)
    requires
        forall|i: int| 0 <= i < s.len() ==> w(#[trigger] s[i]) <= b,
    ensures
        sum_cells(s, w) <= b * s.len(),
    decreases s.len(),
{
    if s.len() > 0 {
        lemma_sum_bound(s.drop_last(), w, b);
        assert(w(s[s.len() - 1]) <= b);
        assert(b * (s.len() - 1) + b == b * s.len()) by (nonlinear_arith);
    }
}

proof fn lemma_sum_step(s: Seq<Field>, w: spec_fn(Field) -> nat, i: int, b: nat)
    requires
        0 <= i < s.len(),
        forall|j: int| 0 <= j < s.len() ==> w(#[trigger] s[j]) <= b,
    ensures
        sum_cells(s.take(i + 1), w) == sum_cells(s.take(i), w) + w(s[i]),
        sum_cells(s.take(i + 1), w) <= b * (i + 1),
{
    assert(s.take(i + 1).drop_last() =~= s.take(i));
    assert forall|j: int| 0 <= j < s.take(i + 1).len() implies w(#[trigger] s.take(i + 1)[j]) <= b by {
        assert(s.take(i + 1)[j] == s[j]);
    }
    lemma_sum_bound(s.take(i + 1), w, b);
}

pub open spec fn one_if(b: bool) -> nat {
    if b { 1 } else { 0 }
}

/// The cell at `(x, y)` lies in the grid and is cultivated with `c`.
pub open spec fn has_at(cells: Seq<Field>, x: int, y: int, c: Cultivation) -> bool {
    in_bounds(x, y) && field_has(cell(cells, x, y), c)
}

/// No neighbour of `(x, y)` is free.
pub open spec fn shut_in(cells: Seq<Field>, x: int, y: int) -> bool {
    !free_at(cells, x, y + 1) && !free_at(cells, x, y - 1) && !free_at(cells, x + 1, y) && !free_at(cells, x - 1, y)
}

/// Number of neighbours of `(x, y)` cultivated with `c`.
pub open spec fn nb_count(cells: Seq<Field>, x: int, y: int, c: Cultivation) -> nat {
    one_if(has_at(cells, x, y + 1, c)) + one_if(has_at(cells, x, y - 1, c)) + one_if(has_at(cells, x + 1, y, c))
        + one_if(has_at(cells, x - 1, y, c))
}

pub open spec fn has_nb(cells: Seq<Field>, x: int, y: int, c: Cultivation) -> bool {
    has_at(cells, x, y + 1, c) || has_at(cells, x, y - 1, c) || has_at(cells, x + 1, y, c) || has_at(cells, x - 1, y, c)
}

/// A forest cell with no free neighbour scores one.
pub open spec fn forest_enclosed_w(cells: Seq<Field>) -> spec_fn(Field) -> nat {
    |f: Field| one_if(field_has(f, Cultivation::Forest) && shut_in(cells, f.position.x as int, f.position.y as int))
}

/// A mountain scores one for each water or farm neighbour.
pub open spec fn mountain_adjacency_w(cells: Seq<Field>) -> spec_fn(Field) -> nat {
    |f: Field| if f.terrain is Mountain {
        nb_count(cells, f.position.x as int, f.position.y as int, Cultivation::Water)
            + nb_count(cells, f.position.x as int, f.position.y as int, Cultivation::Farm)
    } else {
        0
    }
}

/// A ruin scores three when it is farmland and one for each water neighbour.
pub open spec fn ruin_bonus_w(cells: Seq<Field>) -> spec_fn(Field) -> nat {
    |f: Field| if f.terrain is Ruin {
        3 * one_if(field_has(f, Cultivation::Farm)) + nb_count(cells, f.position.x as int, f.position.y as int, Cultivation::Water)
    } else {
        0
    }
}

/// A free cell whose neighbours are all taken scores one.
pub open spec fn enclosed_free_w(cells: Seq<Field>) -> spec_fn(Field) -> nat {
    |f: Field| one_if(field_free(f) && shut_in(cells, f.position.x as int, f.position.y as int))
}

pub open spec fn on_border(c: crate::coordinate::Coordinate) -> bool {
    c.x == 0 || c.x == SIZE - 1 || c.y == 0 || c.y == SIZE - 1
}

/// A forest cell on the outer ring scores one.
pub open spec fn forest_border_w() -> spec_fn(Field) -> nat {
    |f: Field| one_if(field_has(f, Cultivation::Forest) && on_border(f.position))
}

/// A farm next to water scores one, and so does water next to a farm.
pub open spec fn irrigation_w(cells: Seq<Field>) -> spec_fn(Field) -> nat {
    |f: Field| one_if(field_has(f, Cultivation::Farm) && has_nb(cells, f.position.x as int, f.position.y as int, Cultivation::Water))
        + one_if(field_has(f, Cultivation::Water) && has_nb(cells, f.position.x as int, f.position.y as int, Cultivation::Farm))
}

/// Whether the cell at `(x, y)` is in the grid and cultivated with `c`.
fn has_at_exec(grid: &Grid, x: i64, y: i64, c: Cultivation) -> (r: bool)
    requires
        grid.layout_ok(),
    ensures
        r == has_at(grid.cells(), x as int, y as int, c),
{
    if 0 <= x && x < SIZE as i64 && 0 <= y && y < SIZE as i64 {
        grid.cell_at(x as usize, y as usize).has_cultivation(c)
    } else {
        false
    }
}

fn nb_count_exec(grid: &Grid, x: i64, y: i64, c: Cultivation) -> (r: usize)
    requires
        grid.layout_ok(),
        -1 <= x <= SIZE,
        -1 <= y <= SIZE,
    ensures
        r == nb_count(grid.cells(), x as int, y as int, c),
        r <= 4,
{
    let mut n: usize = 0;
    if has_at_exec(grid, x, y + 1, c) { n += 1; }
    if has_at_exec(grid, x, y - 1, c) { n += 1; }
    if has_at_exec(grid, x + 1, y, c) { n += 1; }
    if has_at_exec(grid, x - 1, y, c) { n += 1; }
    n
}

fn shut_in_exec(grid: &Grid, x: i64, y: i64) -> (r: bool)
    requires
        grid.layout_ok(),
        -1 <= x <= SIZE,
        -1 <= y <= SIZE,
    ensures
        r == shut_in(grid.cells(), x as int, y as int),
{
    !(grid.is_free_wide(x, y + 1) || grid.is_free_wide(x, y - 1) || grid.is_free_wide(x + 1, y)
        || grid.is_free_wide(x - 1, y))
}

/// One point per forest cell with no free neighbour.
pub fn score_forest_enclosure(grid: &Grid) -> (r: usize)
    requires
        grid.wf(),
    ensures
        r == sum_cells(grid.cells(), forest_enclosed_w(grid.cells())),
{
    let ghost cells = grid.cells();
    let ghost w = forest_enclosed_w(cells);
    let mut count: usize = 0;
    let mut i: usize = 0;
    while i < CELLS
        invariant
            grid.wf(),
            cells == grid.cells(),
            w == forest_enclosed_w(cells),
            i <= CELLS,
            count == sum_cells(cells.take(i as int), w),
            count <= i,
        decreases CELLS - i,
    {
        proof {
            lemma_pos_idx(i as int);
            lemma_sum_step(cells, w, i as int, 1);
        }
        let f = grid.inner[i];
        if f.has_cultivation(Cultivation::Forest) && shut_in_exec(grid, f.position.x as i64, f.position.y as i64) {
            count += 1;
        }
        i += 1;
    }
    assert(cells.take(CELLS as int) =~= cells);
    count
}

/// One point per pair of a mountain and a water or farm neighbour.
pub fn score_mountain_adjacency(grid: &Grid) -> (r: usize)
    requires
        grid.wf(),
    ensures
        r == sum_cells(grid.cells(), mountain_adjacency_w(grid.cells())),
{
    let ghost cells = grid.cells();
    let ghost w = mountain_adjacency_w(cells);
    let mut count: usize = 0;
    let mut i: usize = 0;
    while i < CELLS
        invariant
            grid.wf(),
            cells == grid.cells(),
            w == mountain_adjacency_w(cells),
            i <= CELLS,
            count == sum_cells(cells.take(i as int), w),
            count <= 8 * i,
        decreases CELLS - i,
    {
        proof {
            lemma_pos_idx(i as int);
            assert forall|j: int| 0 <= j < cells.len() implies w(#[trigger] cells[j]) <= 8 by {}
            lemma_sum_step(cells, w, i as int, 8);
        }
        let f = grid.inner[i];
        if f.terrain.is_mountain() {
            let x = f.position.x as i64;
            let y = f.position.y as i64;
            count += nb_count_exec(grid, x, y, Cultivation::Water) + nb_count_exec(grid, x, y, Cultivation::Farm);
        }
        i += 1;
    }
    assert(cells.take(CELLS as int) =~= cells);
    count
}

/// Three points per ruin cultivated as farmland, one per water cell next to a ruin.
pub fn score_ruin_bonus(grid: &Grid) -> (r: usize)
    requires
        grid.wf(),
    ensures
        r == sum_cells(grid.cells(), ruin_bonus_w(grid.cells())),
{
    let ghost cells = grid.cells();
    let ghost w = ruin_bonus_w(cells);
    let mut count: usize = 0;
    let mut i: usize = 0;
    while i < CELLS
        invariant
            grid.wf(),
            cells == grid.cells(),
            w == ruin_bonus_w(cells),
            i <= CELLS,
            count == sum_cells(cells.take(i as int), w),
            count <= 7 * i,
        decreases CELLS - i,
    {
        proof {
            lemma_pos_idx(i as int);
            assert forall|j: int| 0 <= j < cells.len() implies w(#[trigger] cells[j]) <= 7 by {}
            lemma_sum_step(cells, w, i as int, 7);
        }
        let f = grid.inner[i];
        if f.is_ruin() {
            if f.has_cultivation(Cultivation::Farm) {
                count += 3;
            }
            count += nb_count_exec(grid, f.position.x as i64, f.position.y as i64, Cultivation::Water);
        }
        i += 1;
    }
    assert(cells.take(CELLS as int) =~= cells);
    count
}

/// One point per free cell whose neighbours are all taken.
pub fn score_enclosed_free(grid: &Grid) -> (r: usize)
    requires
        grid.wf(),
    ensures
        r == sum_cells(grid.cells(), enclosed_free_w(grid.cells())),
{
    let ghost cells = grid.cells();
    let ghost w = enclosed_free_w(cells);
    let mut count: usize = 0;
    let mut i: usize = 0;
    while i < CELLS
        invariant
            grid.wf(),
            cells == grid.cells(),
            w == enclosed_free_w(cells),
            i <= CELLS,
            count == sum_cells(cells.take(i as int), w),
            count <= i,
        decreases CELLS - i,
    {
        proof {
            lemma_pos_idx(i as int);
            lemma_sum_step(cells, w, i as int, 1);
        }
        let f = grid.inner[i];
        if f.is_free() && shut_in_exec(grid, f.position.x as i64, f.position.y as i64) {
            count += 1;
        }
        i += 1;
    }
    assert(cells.take(CELLS as int) =~= cells);
    count
}

/// One point per forest cell on the outer ring.
pub fn score_forest_border(grid: &Grid) -> (r: usize)
    requires
        grid.wf(),
    ensures
        r == sum_cells(grid.cells(), forest_border_w()),
{
    let ghost cells = grid.cells();
    let ghost w = forest_border_w();
    let mut count: usize = 0;
    let mut i: usize = 0;
    while i < CELLS
        invariant
            grid.wf(),
            cells == grid.cells(),
            w == forest_border_w(),
            i <= CELLS,
            count == sum_cells(cells.take(i as int), w),
            count <= i,
        decreases CELLS - i,
    {
        proof {
            lemma_pos_idx(i as int);
            lemma_sum_step(cells, w, i as int, 1);
        }
        let f = grid.inner[i];
        let p = f.position;
        if f.has_cultivation(Cultivation::Forest) && (p.x == 0 || p.x == 10 || p.y == 0 || p.y == 10) {
            count += 1;
        }
        i += 1;
    }
    assert(cells.take(CELLS as int) =~= cells);
    count
}

/// One point per farm next to water and one per water next to a farm.
pub fn score_irrigation(grid: &Grid) -> (r: usize)
    requires
        grid.wf(),
    ensures
        r == sum_cells(grid.cells(), irrigation_w(grid.cells())),
{
    let ghost cells = grid.cells();
    let ghost w = irrigation_w(cells);
    let mut count: usize = 0;
    let mut i: usize = 0;
    while i < CELLS
        invariant
            grid.wf(),
            cells == grid.cells(),
            w == irrigation_w(cells),
            i <= CELLS,
            count == sum_cells(cells.take(i as int), w),
            count <= 2 * i,
        decreases CELLS - i,
    {
        proof {
            lemma_pos_idx(i as int);
            assert forall|j: int| 0 <= j < cells.len() implies w(#[trigger] cells[j]) <= 2 by {}
            lemma_sum_step(cells, w, i as int, 2);
        }
        let f = grid.inner[i];
        let x = f.position.x as i64;
        let y = f.position.y as i64;
        if f.has_cultivation(Cultivation::Farm) && nb_count_exec(grid, x, y, Cultivation::Water) > 0 {
            count += 1;
        }
        if f.has_cultivation(Cultivation::Water) && nb_count_exec(grid, x, y, Cultivation::Farm) > 0 {
            count += 1;
        }
        i += 1;
    }
    assert(cells.take(CELLS as int) =~= cells);
    count
}


/// No cell of the line is free.
pub open spec fn line_taken(s: Seq<Field>) -> bool {
    forall|k: int| 0 <= k < s.len() ==> !field_free(#[trigger] s[k])
}

/// Some cell of the line is cultivated with `c`.
pub open spec fn line_has(s: Seq<Field>, c: Cultivation) -> bool {
    exists|k: int| 0 <= k < s.len() && field_has(#[trigger] s[k], c)
}

/// Six points for each of the first `n` rows and columns that has no free cell.
pub open spec fn full_lines_upto(cells: Seq<Field>, n: nat) -> nat
    decreases n,
{
    if n == 0 {
        0
    } else {
        full_lines_upto(cells, (n - 1) as nat) + 6 * one_if(line_taken(row_spec(cells, n - 1)))
            + 6 * one_if(line_taken(column_spec(cells, n - 1)))
    }
}

/// One point for each of the first `n` rows and columns holding a forest.
pub open spec fn forest_lines_upto(cells: Seq<Field>, n: nat) -> nat
    decreases n,
{
    if n == 0 {
        0
    } else {
        forest_lines_upto(cells, (n - 1) as nat) + one_if(line_has(row_spec(cells, n - 1), Cultivation::Forest))
            + one_if(line_has(column_spec(cells, n - 1), Cultivation::Forest))
    }
}

/// Three points for each of the diagonals `0..n` that has no free cell.
pub open spec fn full_diagonals_upto(cells: Seq<Field>, n: nat) -> nat
    decreases n,
{
    if n == 0 {
        0
    } else {
        full_diagonals_upto(cells, (n - 1) as nat) + 3 * one_if(line_taken(diagonal_spec(cells, n - 1)))
    }
}

fn all_taken(v: &Vec<Field>) -> (r: bool)
    ensures
        r == line_taken(v@),
{
    let mut i: usize = 0;
    while i < v.len()
        invariant
            i <= v@.len(),
            forall|k: int| 0 <= k < i ==> !field_free(#[trigger] v@[k]),
        decreases v@.len() - i,
    {
        if v[i].is_free() {
            return false;
        }
        i += 1;
    }
    true
}

fn any_has(v: &Vec<Field>, c: Cultivation) -> (r: bool)
    ensures
        r == line_has(v@, c),
{
    let mut i: usize = 0;
    while i < v.len()
        invariant
            i <= v@.len(),
            forall|k: int| 0 <= k < i ==> !field_has(#[trigger] v@[k], c),
        decreases v@.len() - i,
    {
        if v[i].has_cultivation(c) {
            return true;
        }
        i += 1;
    }
    false
}

/// Six points per row and per column without a free cell.
pub fn score_full_lines(grid: &Grid) -> (r: usize)
    requires
        grid.wf(),
    ensures
        r == full_lines_upto(grid.cells(), SIZE as nat),
{
    let mut score: usize = 0;
    let mut n: usize = 0;
    while n < SIZE
        invariant
            grid.wf(),
            n <= SIZE,
            score == full_lines_upto(grid.cells(), n as nat),
            score <= 12 * n,
        decreases SIZE - n,
    {
        if all_taken(&grid.row(n)) {
            score += 6;
        }
        if all_taken(&grid.column(n)) {
            score += 6;
        }
        n += 1;
    }
    score
}

/// One point per row and per column that holds a forest.
pub fn score_forest_lines(grid: &Grid) -> (r: usize)
    requires
        grid.wf(),
    ensures
        r == forest_lines_upto(grid.cells(), SIZE as nat),
{
    let mut score: usize = 0;
    let mut n: usize = 0;
    while n < SIZE
        invariant
            grid.wf(),
            n <= SIZE,
            score == forest_lines_upto(grid.cells(), n as nat),
            score <= 2 * n,
        decreases SIZE - n,
    {
        if any_has(&grid.row(n), Cultivation::Forest) {
            score += 1;
        }
        if any_has(&grid.column(n), Cultivation::Forest) {
            score += 1;
        }
        n += 1;
    }
    score
}

/// Three points per diagonal among the first eleven without a free cell.
pub fn score_full_diagonals(grid: &Grid) -> (r: usize)
    requires
        grid.wf(),
    ensures
        r == full_diagonals_upto(grid.cells(), SIZE as nat),
{
    let diagonals = grid.diagonals();
    let mut score: usize = 0;
    let mut n: usize = 0;
    while n < SIZE
        invariant
            grid.wf(),
            diagonals@.len() == 2 * SIZE - 1,
            forall|k: int| 0 <= k < 2 * SIZE - 1 ==> (#[trigger] diagonals@[k])@ == diagonal_spec(grid.cells(), k),
            n <= SIZE,
            score == full_diagonals_upto(grid.cells(), n as nat),
            score <= 3 * n,
        decreases SIZE - n,
    {
        if all_taken(&diagonals[n]) {
            score += 3;
        }
        n += 1;
    }
    score
}


/// Number of the first `k` entries of `r` that satisfy `p`.
pub open spec fn count_ranked(r: Seq<(AreaID, usize)>, k: int, p: spec_fn((AreaID, usize)) -> bool) -> nat
    decreases k,
{
    if k <= 0 {
        0
    } else {
        count_ranked(r, k - 1, p) + one_if(p(r[k - 1]))
    }
}

proof fn lemma_count_ranked_le(r: Seq<(AreaID, usize)>, k: int, p: spec_fn((AreaID, usize)) -> bool)
    ensures
        count_ranked(r, k, p) <= if k < 0 { 0 } else { k },
    decreases k,
{
    if k > 0 {
        lemma_count_ranked_le(r, k - 1, p);
    }
}

/// Some cell next to area `id` is cultivated with `c`.
pub open spec fn touches_kind(g: Grid, id: usize, c: Cultivation) -> bool {
    exists|f: Field| area_touches(g, id, f) && field_has(f, c)
}

/// Some cell next to area `id` is a mountain.
pub open spec fn touches_mountain(g: Grid, id: usize) -> bool {
    exists|f: Field| area_touches(g, id, f) && f.terrain is Mountain
}

pub open spec fn large_village() -> spec_fn((AreaID, usize)) -> bool {
    |e: (AreaID, usize)| e.1 >= 6
}

/// The size of the first of the entries `k..` of `r` whose area touches no
/// mountain, or zero.
pub open spec fn first_isolated(g: Grid, r: Seq<(AreaID, usize)>, k: int) -> nat
    decreases r.len() - k,
{
    if k < 0 || k >= r.len() {
        0
    } else if !touches_mountain(g, r[k].0.0) {
        r[k].1 as nat
    } else {
        first_isolated(g, r, k + 1)
    }
}

/// Every member of area `id` has all four neighbours in the grid.
pub open spec fn inland(g: Grid, id: usize) -> bool {
    forall|k: int| 0 <= k < g.areas()[id].field_coords@.len()
        ==> (#[trigger] nb_of(g.cells(), g.areas()[id].field_coords@[k])).len() == 4
}

/// An area that touches no cell of kind `other` and lies away from the edge.
pub open spec fn coastal(g: Grid, other: Cultivation) -> spec_fn((AreaID, usize)) -> bool {
    |e: (AreaID, usize)| !touches_kind(g, e.0.0, other) && inland(g, e.0.0)
}

/// Number of kinds of cultivation next to area `id`.
#[verifier::opaque]
pub open spec fn kinds_around(g: Grid, id: usize) -> nat {
    one_if(touches_kind(g, id, Cultivation::Village)) + one_if(touches_kind(g, id, Cultivation::Water))
        + one_if(touches_kind(g, id, Cultivation::Farm)) + one_if(touches_kind(g, id, Cultivation::Forest))
        + one_if(touches_kind(g, id, Cultivation::Goblin))
}

pub open spec fn diverse(g: Grid) -> spec_fn((AreaID, usize)) -> bool {
    |e: (AreaID, usize)| kinds_around(g, e.0.0) >= 3
}

/// Area `id` touches `f` and a mountain at another place.
#[verifier::opaque]
pub open spec fn area_links(g: Grid, id: usize, f: Field) -> bool {
    area_touches(g, id, f) && exists|f2: Field| area_touches(g, id, f2) && f2.terrain is Mountain && f2.position != f.position
}

/// A mountain next to a forest area that touches another mountain as well.
pub open spec fn linked_mountain(g: Grid, f: Field) -> bool {
    &&& f.terrain is Mountain
    &&& exists|id: usize| {
        &&& #[trigger] g.areas().contains_key(id)
        &&& g.areas()[id].kind == Cultivation::Forest
        &&& area_links(g, id, f)
    }
}

pub open spec fn linked_w(g: Grid) -> spec_fn(Field) -> nat {
    |f: Field| 3 * one_if(linked_mountain(g, f))
}

fn touches_kind_exec(grid: &Grid, id: AreaID, c: Cultivation) -> (r: bool)
    requires
        grid.wf(),
    ensures
        r == touches_kind(*grid, id.0, c),
{
    let nb = grid.area_neighbors(&id);
    let r = any_has(&nb, c);
    proof {
        if r {
            let k = choose|k: int| 0 <= k < nb@.len() && field_has(#[trigger] nb@[k], c);
            assert(nb@.contains(nb@[k]));
        }
        if touches_kind(*grid, id.0, c) {
            let f = choose|f: Field| area_touches(*grid, id.0, f) && field_has(f, c);
            assert(nb@.contains(f));
            let k = choose|k: int| 0 <= k < nb@.len() && nb@[k] == f;
            assert(field_has(nb@[k], c));
        }
    }
    r
}

fn touches_mountain_exec(grid: &Grid, id: AreaID) -> (r: bool)
    requires
        grid.wf(),
    ensures
        r == touches_mountain(*grid, id.0),
{
    let nb = grid.area_neighbors(&id);
    let mut i: usize = 0;
    while i < nb.len()
        invariant
            i <= nb@.len(),
            forall|f: Field| nb@.contains(f) <==> area_touches(*grid, id.0, f),
            forall|k: int| 0 <= k < i ==> !((#[trigger] nb@[k]).terrain is Mountain),
        decreases nb@.len() - i,
    {
        if nb[i].terrain.is_mountain() {
            assert(nb@.contains(nb@[i as int]));
            assert(area_touches(*grid, id.0, nb@[i as int]));
            proof {
                reveal(area_links);
            }
            return true;
        }
        i += 1;
    }
    proof {
        if touches_mountain(*grid, id.0) {
            let f = choose|f: Field| area_touches(*grid, id.0, f) && f.terrain is Mountain;
            assert(nb@.contains(f));
            let k = choose|k: int| 0 <= k < nb@.len() && nb@[k] == f;
        }
    }
    false
}

fn inland_exec(grid: &Grid, id: AreaID) -> (r: bool)
    requires
        grid.wf(),
        grid.areas().contains_key(id.0),
    ensures
        r == inland(*grid, id.0),
{
    match grid.area_info(id) {
        None => false,
        Some(info) => {
            let members = &info.field_coords;
            let mut k: usize = 0;
            while k < members.len()
                invariant
                    grid.wf(),
                    members@ == grid.areas()[id.0].field_coords@,
                    k <= members@.len(),
                    forall|q: int| 0 <= q < k ==> (#[trigger] nb_of(grid.cells(), members@[q])).len() == 4,
                decreases members@.len() - k,
            {
                if grid.neighbors(&members[k]).len() < 4 {
                    assert(nb_of(grid.cells(), members@[k as int]).len() <= 4);
                    return false;
                }
                k += 1;
            }
            true
        },
    }
}

/// Eight points per village area of at least six cells.
pub fn score_large_villages(grid: &Grid) -> (r: usize)
    requires
        grid.wf(),
    ensures
        r == 8 * count_ranked(area_ranking(*grid, Cultivation::Village), area_ranking(*grid, Cultivation::Village).len() as int, large_village()),
{
    let ranked = grid.area_ids(Cultivation::Village);
    let mut count: usize = 0;
    let mut k: usize = 0;
    while k < ranked.len()
        invariant
            k <= ranked@.len(),
            count == count_ranked(ranked@, k as int, large_village()),
            count <= k,
        decreases ranked@.len() - k,
    {
        if ranked[k].1 >= 6 {
            count += 1;
        }
        k += 1;
    }
    proof {
        lemma_count_ranked_le(ranked@, k as int, large_village());
    }
    assert(ranked@.len() <= CELLS) by {
        lemma_ranking_len(*grid, Cultivation::Village, ranked@);
    }
    count * 8
}

/// The size of the largest village area that touches no mountain, or zero.
pub fn score_isolated_village(grid: &Grid) -> (r: usize)
    requires
        grid.wf(),
    ensures
        r == first_isolated(*grid, area_ranking(*grid, Cultivation::Village), 0),
{
    let ranked = grid.area_ids(Cultivation::Village);
    let mut k: usize = 0;
    while k < ranked.len()
        invariant
            grid.wf(),
            ranked@ == area_ranking(*grid, Cultivation::Village),
            k <= ranked@.len(),
            first_isolated(*grid, ranked@, 0) == first_isolated(*grid, ranked@, k as int),
        decreases ranked@.len() - k,
    {
        let (id, size) = ranked[k];
        if !touches_mountain_exec(grid, id) {
            return size;
        }
        k += 1;
    }
    0
}

/// The size of the second-ranked village area, or zero.
pub fn score_second_village(grid: &Grid) -> (r: usize)
    requires
        grid.wf(),
    ensures
        r == if area_ranking(*grid, Cultivation::Village).len() >= 2 {
            area_ranking(*grid, Cultivation::Village)[1].1
        } else {
            0
        },
{
    let ranked = grid.area_ids(Cultivation::Village);
    if ranked.len() >= 2 {
        ranked[1].1
    } else {
        0
    }
}

/// Three points per water area away from the edge that touches no farm, and
/// per farm area away from the edge that touches no water.
pub fn score_coastal(grid: &Grid) -> (r: usize)
    requires
        grid.wf(),
    ensures
        r == 3 * count_ranked(area_ranking(*grid, Cultivation::Water), area_ranking(*grid, Cultivation::Water).len() as int, coastal(*grid, Cultivation::Farm))
            + 3 * count_ranked(area_ranking(*grid, Cultivation::Farm), area_ranking(*grid, Cultivation::Farm).len() as int, coastal(*grid, Cultivation::Water)),
{
    let water = count_coastal(grid, Cultivation::Water, Cultivation::Farm);
    let farm = count_coastal(grid, Cultivation::Farm, Cultivation::Water);
    3 * water + 3 * farm
}

fn is_coastal(grid: &Grid, id: AreaID, other: Cultivation) -> (r: bool)
    requires
        grid.wf(),
        grid.areas().contains_key(id.0),
    ensures
        r == (!touches_kind(*grid, id.0, other) && inland(*grid, id.0)),
{
    let touching = touches_kind_exec(grid, id, other);
    let away = inland_exec(grid, id);
    !touching && away
}

fn count_coastal(grid: &Grid, kind: Cultivation, other: Cultivation) -> (r: usize)
    requires
        grid.wf(),
    ensures
        r == count_ranked(area_ranking(*grid, kind), area_ranking(*grid, kind).len() as int, coastal(*grid, other)),
        r <= CELLS,
{
    let ranked = grid.area_ids(kind);
    proof {
        lemma_ranking_len(*grid, kind, ranked@);
    }
    let mut count: usize = 0;
    let mut k: usize = 0;
    while k < ranked.len()
        invariant
            grid.wf(),
            forall|q: int| 0 <= q < ranked@.len() ==> grid.areas().contains_key((#[trigger] ranked@[q]).0.0),
            ranked@.len() <= CELLS,
            k <= ranked@.len(),
            count == count_ranked(ranked@, k as int, coastal(*grid, other)),
            count <= k,
        decreases ranked@.len() - k,
    {
        let id = ranked[k].0;
        let yes = is_coastal(grid, id, other);
        assert(coastal(*grid, other)(ranked@[k as int]) == yes);
        if yes {
            count += 1;
        }
        k += 1;
    }
    count
}

fn kinds_around_exec(grid: &Grid, id: AreaID) -> (r: usize)
    requires
        grid.wf(),
    ensures
        r == kinds_around(*grid, id.0),
{
    reveal(kinds_around);
    let mut kinds: usize = 0;
    if touches_kind_exec(grid, id, Cultivation::Village) { kinds += 1; }
    if touches_kind_exec(grid, id, Cultivation::Water) { kinds += 1; }
    if touches_kind_exec(grid, id, Cultivation::Farm) { kinds += 1; }
    if touches_kind_exec(grid, id, Cultivation::Forest) { kinds += 1; }
    if touches_kind_exec(grid, id, Cultivation::Goblin) { kinds += 1; }
    kinds
}

/// Three points per village area next to at least three kinds of cultivation.
#[verifier::rlimit(30)]
pub fn score_diverse_villages(grid: &Grid) -> (r: usize)
    requires
        grid.wf(),
    ensures
        r == 3 * count_ranked(area_ranking(*grid, Cultivation::Village), area_ranking(*grid, Cultivation::Village).len() as int, diverse(*grid)),
{
    let ranked = grid.area_ids(Cultivation::Village);
    proof {
        lemma_ranking_len(*grid, Cultivation::Village, ranked@);
    }
    let mut count: usize = 0;
    let mut k: usize = 0;
    while k < ranked.len()
        invariant
            grid.wf(),
            ranked@.len() <= CELLS,
            k <= ranked@.len(),
            count == count_ranked(ranked@, k as int, diverse(*grid)),
            count <= k,
        decreases ranked@.len() - k,
    {
        let id = ranked[k].0;
        let kinds = kinds_around_exec(grid, id);
        assert(diverse(*grid)(ranked@[k as int]) == (kinds >= 3));
        if kinds >= 3 {
            count += 1;
        }
        k += 1;
    }
    3 * count
}

/// A ranking lists distinct areas, each with a member cell, so it is no
/// longer than the grid.
proof fn lemma_ranking_len(g: Grid, c: Cultivation, r: Seq<(AreaID, usize)>)
    requires
        g.wf(),
        is_ranking(g, c, r),
    ensures
        r.len() <= CELLS,
{
    let ids = r.map_values(|e: (AreaID, usize)| e.0.0);
    let cells = g.cells();
    // each listed area owns a cell; distinct areas own distinct cells
    let owner = |k: int| crate::ranking::member_cell(cells, ids[k]);
    assert forall|a: int, b: int| 0 <= a < r.len() && 0 <= b < r.len() && a != b implies ids[a] != ids[b] by {
        if a < b {
            assert(crate::ranking::ranks_before(r[a], r[b]));
        } else {
            assert(crate::ranking::ranks_before(r[b], r[a]));
        }
    }
    let idxs = Seq::new(r.len(), |k: int| owner(k));
    assert forall|k: int| 0 <= k < r.len() implies 0 <= #[trigger] idxs[k] < CELLS && crate::grid::has_id(cells[idxs[k]], ids[k]) by {
        assert(g.areas().contains_key(r[k].0.0));
        crate::ranking::lemma_member_cell_spec(cells, ids[k]);
    }
    assert(idxs.no_duplicates());
    let full = Set::new(|i: int| 0 <= i < CELLS);
    assert(idxs.to_set().subset_of(full));
    vstd::set_lib::lemma_int_range(0, CELLS as int);
    assert(full =~= vstd::set_lib::set_int_range(0, CELLS as int));
    vstd::set_lib::lemma_len_subset(idxs.to_set(), full);
    idxs.unique_seq_to_set();
}


fn contains_field(v: &Vec<Field>, f: Field) -> (r: bool)
    ensures
        r == v@.contains(f),
{
    let mut i: usize = 0;
    while i < v.len()
        invariant
            i <= v@.len(),
            forall|k: int| 0 <= k < i ==> v@[k] != f,
        decreases v@.len() - i,
    {
        if v[i] == f {
            assert(v@[i as int] == f);
            return true;
        }
        i += 1;
    }
    false
}

/// Whether area `id` touches `f` and a mountain at another place.
fn links(grid: &Grid, id: AreaID, f: Field) -> (r: bool)
    requires
        grid.wf(),
    ensures
        r == area_links(*grid, id.0, f),
{
    reveal(area_links);
    let nb = grid.area_neighbors(&id);
    if !contains_field(&nb, f) {
        return false;
    }
    let mut i: usize = 0;
    while i < nb.len()
        invariant
            i <= nb@.len(),
            area_touches(*grid, id.0, f),
            forall|g: Field| nb@.contains(g) <==> area_touches(*grid, id.0, g),
            forall|k: int| 0 <= k < i ==> !((#[trigger] nb@[k]).terrain is Mountain && nb@[k].position != f.position),
        decreases nb@.len() - i,
    {
        let g = nb[i];
        if g.terrain.is_mountain() && g.position != f.position {
            assert(nb@.contains(nb@[i as int]));
            assert(area_touches(*grid, id.0, nb@[i as int]));
            proof {
                reveal(area_links);
            }
            return true;
        }
        i += 1;
    }
    proof {
        if exists|f2: Field| area_touches(*grid, id.0, f2) && f2.terrain is Mountain && f2.position != f.position {
            let f2 = choose|f2: Field| area_touches(*grid, id.0, f2) && f2.terrain is Mountain && f2.position != f.position;
            assert(nb@.contains(f2));
            let k = choose|k: int| 0 <= k < nb@.len() && nb@[k] == f2;
        }
    }
    false
}

fn is_linked(grid: &Grid, forests: &Vec<(AreaID, usize)>, f: Field) -> (r: bool)
    requires
        grid.wf(),
        is_ranking(*grid, Cultivation::Forest, forests@),
        f.terrain is Mountain,
    ensures
        r == linked_mountain(*grid, f),
{
    let mut k: usize = 0;
    while k < forests.len()
        invariant
            grid.wf(),
            forall|q: int| 0 <= q < forests@.len() ==> grid.areas().contains_key((#[trigger] forests@[q]).0.0)
                && grid.areas()[forests@[q].0.0].kind == Cultivation::Forest,
            k <= forests@.len(),
            f.terrain is Mountain,
            forall|q: int| 0 <= q < k ==> !area_links(*grid, (#[trigger] forests@[q]).0.0, f),
        decreases forests@.len() - k,
    {
        let id = forests[k].0;
        if links(grid, id, f) {
            assert(grid.areas().contains_key(forests@[k as int].0.0));
            return true;
        }
        k += 1;
    }
    proof {
        if linked_mountain(*grid, f) {
            let id = choose|id: usize| {
                &&& #[trigger] grid.areas().contains_key(id)
                &&& grid.areas()[id].kind == Cultivation::Forest
                &&& area_links(*grid, id, f)
            };
            let q = choose|q: int| 0 <= q < forests@.len() && (#[trigger] forests@[q]).0.0 == id;
        }
    }
    false
}

/// Three points per mountain that a forest area links with another mountain.
pub fn score_linked_mountains(grid: &Grid) -> (r: usize)
    requires
        grid.wf(),
    ensures
        r == sum_cells(grid.cells(), linked_w(*grid)),
{
    let forests = grid.area_ids(Cultivation::Forest);
    let ghost cells = grid.cells();
    let ghost w = linked_w(*grid);
    let mut count: usize = 0;
    let mut i: usize = 0;
    while i < CELLS
        invariant
            grid.wf(),
            cells == grid.cells(),
            w == linked_w(*grid),
            is_ranking(*grid, Cultivation::Forest, forests@),
            i <= CELLS,
            count == sum_cells(cells.take(i as int), w),
            count <= 3 * i,
        decreases CELLS - i,
    {
        proof {
            assert forall|j: int| 0 <= j < cells.len() implies w(#[trigger] cells[j]) <= 3 by {}
            lemma_sum_step(cells, w, i as int, 3);
        }
        let f = grid.inner[i];
        if f.terrain.is_mountain() {
            let linked = is_linked(grid, &forests, f);
            if linked {
                count += 3;
            }
        }
        i += 1;
    }
    assert(cells.take(CELLS as int) =~= cells);
    count
}

pub open spec fn min3(a: nat, b: nat, c: nat) -> nat {
    if a <= b && a <= c { a } else if b <= c { b } else { c }
}

/// Edge of the largest square of taken cells whose corner of largest
/// coordinates is `(x, y)`, by the usual recurrence.
pub open spec fn square_dp(cells: Seq<Field>, x: int, y: int) -> nat
    decreases x + y + 2,
{
    if x < 0 || y < 0 || x + y + 2 <= 0 {
        0
    } else if !in_bounds(x, y) || field_free(cell(cells, x, y)) {
        0
    } else {
        1 + min3(square_dp(cells, x - 1, y), square_dp(cells, x, y - 1), square_dp(cells, x - 1, y - 1))
    }
}

/// The largest `square_dp` value over the first `k` cells in coordinate order.
pub open spec fn max_square_upto(cells: Seq<Field>, k: int) -> nat
    decreases k,
{
    if k <= 0 {
        0
    } else {
        let m = max_square_upto(cells, k - 1);
        let d = square_dp(cells, (k - 1) / 11, (k - 1) % 11);
        if d > m { d } else { m }
    }
}

proof fn lemma_square_dp_le(cells: Seq<Field>, x: int, y: int)
    ensures
        x >= -1 && y >= -1 ==> square_dp(cells, x, y) <= if x < y { x + 1 } else { y + 1 },
        x < 11 && y < 11 ==> square_dp(cells, x, y) <= 11,
    decreases x + y + 2,
{
    if x >= 0 && y >= 0 && in_bounds(x, y) && !field_free(cell(cells, x, y)) {
        lemma_square_dp_le(cells, x - 1, y);
        lemma_square_dp_le(cells, x, y - 1);
        lemma_square_dp_le(cells, x - 1, y - 1);
    }
}

/// Edge of the largest square of cells that are all taken (mountains or
/// cultivated).
pub fn score_largest_square(grid: &Grid) -> (r: usize)
    requires
        grid.wf(),
    ensures
        r == largest_square(grid.cells()),
        is_largest_square(grid.cells(), r as nat),
{
    let ghost cells = grid.cells();
    let mut matrix: Vec<usize> = Vec::new();
    let mut result: usize = 0;
    let mut k: usize = 0;
    while k < CELLS
        invariant
            grid.wf(),
            cells == grid.cells(),
            k <= CELLS,
            matrix@.len() == k,
            forall|q: int| 0 <= q < k ==> #[trigger] matrix@[q] == square_dp(cells, q / 11, q % 11),
            result == max_square_upto(cells, k as int),
        decreases CELLS - k,
    {
        let x = k / SIZE;
        let y = k % SIZE;
        proof {
            lemma_pos_idx(k as int);
            lemma_square_dp_le(cells, x as int, y as int);
        }
        let v: usize = if grid.cell_at(x, y).is_free() {
            0
        } else {
            let left: usize = if x > 0 { matrix[k - SIZE] } else { 0 };
            let up: usize = if y > 0 { matrix[k - 1] } else { 0 };
            let diagonal: usize = if x > 0 && y > 0 { matrix[k - SIZE - 1] } else { 0 };
            proof {
                if x > 0 {
                    assert((k - 11) / 11 == x - 1 && (k - 11) % 11 == y) by (nonlinear_arith)
                        requires k == x * 11 + y, x > 0, y < 11;
                    lemma_square_dp_le(cells, x - 1, y as int);
                }
                if y > 0 {
                    assert((k - 1) / 11 == x && (k - 1) % 11 == y - 1) by (nonlinear_arith)
                        requires k == x * 11 + y, y > 0, y < 11;
                }
                if x > 0 && y > 0 {
                    assert((k - 12) / 11 == x - 1 && (k - 12) % 11 == y - 1) by (nonlinear_arith)
                        requires k == x * 11 + y, x > 0, y > 0, y < 11;
                }
            }
            let m = if left <= up && left <= diagonal { left } else if up <= diagonal { up } else { diagonal };
            1 + m
        };
        assert(v == square_dp(cells, x as int, y as int));
        matrix.push(v);
        if v > result {
            result = v;
        }
        k += 1;
    }
    proof {
        lemma_largest_square_value(cells);
    }
    result
}


proof fn lemma_square_dp_free(cells: Seq<Field>, x: int, y: int)
    requires
        cells.len() == CELLS,
        forall|i: int| 0 <= i < CELLS ==> field_free(#[trigger] cells[i]),
    ensures
        square_dp(cells, x, y) == 0,
{
    if in_bounds(x, y) {
        lemma_idx_pos(x, y);
    }
}

proof fn lemma_square_dp_taken(cells: Seq<Field>, x: int, y: int)
    requires
        cells.len() == CELLS,
        forall|i: int| 0 <= i < CELLS ==> !field_free(#[trigger] cells[i]),
        -1 <= x < 11,
        -1 <= y < 11,
    ensures
        square_dp(cells, x, y) == if x < y { x + 1 } else { y + 1 },
    decreases x + y + 2,
{
    if x >= 0 && y >= 0 {
        lemma_idx_pos(x, y);
        lemma_square_dp_taken(cells, x - 1, y);
        lemma_square_dp_taken(cells, x, y - 1);
        lemma_square_dp_taken(cells, x - 1, y - 1);
    }
}

proof fn lemma_max_square_bounds(cells: Seq<Field>, k: int, free: bool)
    requires
        cells.len() == CELLS,
        0 <= k <= CELLS,
        free ==> forall|i: int| 0 <= i < CELLS ==> field_free(#[trigger] cells[i]),
    ensures
        free ==> max_square_upto(cells, k) == 0,
        max_square_upto(cells, k) <= 11,
    decreases k,
{
    if k > 0 {
        lemma_max_square_bounds(cells, k - 1, free);
        lemma_pos_idx(k - 1);
        lemma_square_dp_le(cells, (k - 1) / 11, (k - 1) % 11);
        if free {
            lemma_square_dp_free(cells, (k - 1) / 11, (k - 1) % 11);
        }
    }
}

/// The largest square of taken cells has edge 0 on a board where every cell
/// is free, and edge 11 on a board where no cell is.
pub proof fn lemma_largest_square_extremes(cells: Seq<Field>)
    requires
        cells.len() == CELLS,
    ensures
        (forall|i: int| 0 <= i < CELLS ==> field_free(#[trigger] cells[i])) ==> largest_square(cells) == 0,
        (forall|i: int| 0 <= i < CELLS ==> !field_free(#[trigger] cells[i])) ==> largest_square(cells) == 11,
{
    lemma_largest_square_value(cells);
    if forall|i: int| 0 <= i < CELLS ==> field_free(#[trigger] cells[i]) {
        lemma_max_square_bounds(cells, CELLS as int, true);
    }
    if forall|i: int| 0 <= i < CELLS ==> !field_free(#[trigger] cells[i]) {
        lemma_max_square_bounds(cells, CELLS as int, false);
        lemma_square_dp_taken(cells, 10, 10);
        assert(120int / 11 == 10 && 120int % 11 == 10);
    }
}


/// Every cell of the `s` by `s` square whose corner of largest coordinates
/// is `(x, y)` lies in the grid and is taken.
pub open spec fn taken_square(cells: Seq<Field>, x: int, y: int, s: int) -> bool {
    forall|a: int, b: int| 0 <= a < s && 0 <= b < s
        ==> in_bounds(x - a, y - b) && !field_free(#[trigger] cell(cells, x - a, y - b))
}

/// `r` is the edge of a square of taken cells, and no such square is larger.
pub open spec fn is_largest_square(cells: Seq<Field>, r: nat) -> bool {
    &&& exists|x: int, y: int| in_bounds(x, y) && taken_square(cells, x, y, r as int)
    &&& forall|x: int, y: int, s: int| in_bounds(x, y) && #[trigger] taken_square(cells, x, y, s) ==> s <= r
}

/// Edge of the largest square of taken cells.
pub open spec fn largest_square(cells: Seq<Field>) -> nat {
    choose|r: nat| is_largest_square(cells, r)
}

/// The recurrence gives the edge of the largest taken square with its corner
/// of largest coordinates at `(x, y)`.
proof fn lemma_square_dp_meaning(cells: Seq<Field>, x: int, y: int)
    ensures
        taken_square(cells, x, y, square_dp(cells, x, y) as int),
        !taken_square(cells, x, y, square_dp(cells, x, y) as int + 1),
    decreases x + y + 2,
{
    let d = square_dp(cells, x, y) as int;
    if x < 0 || y < 0 || !in_bounds(x, y) || field_free(cell(cells, x, y)) {
        assert(d == 0);
        if taken_square(cells, x, y, 1) {
            assert(in_bounds(x - 0, y - 0) && !field_free(cell(cells, x - 0, y - 0)));
        }
    } else {
        lemma_square_dp_meaning(cells, x - 1, y);
        lemma_square_dp_meaning(cells, x, y - 1);
        lemma_square_dp_meaning(cells, x - 1, y - 1);
        let dl = square_dp(cells, x - 1, y) as int;
        let du = square_dp(cells, x, y - 1) as int;
        let dd = square_dp(cells, x - 1, y - 1) as int;
        let m = d - 1;
        assert(m <= dl && m <= du && m <= dd);
        assert(m == dl || m == du || m == dd);
        assert forall|a: int, b: int| 0 <= a < d && 0 <= b < d
            implies in_bounds(x - a, y - b) && !field_free(#[trigger] cell(cells, x - a, y - b)) by {
            if a == 0 && b == 0 {
            } else if a >= 1 && b >= 1 {
                assert(in_bounds((x - 1) - (a - 1), (y - 1) - (b - 1)) && !field_free(cell(cells, (x - 1) - (a - 1), (y - 1) - (b - 1))));
            } else if a >= 1 {
                assert(in_bounds((x - 1) - (a - 1), y - b) && !field_free(cell(cells, (x - 1) - (a - 1), y - b)));
            } else {
                assert(in_bounds(x - a, (y - 1) - (b - 1)) && !field_free(cell(cells, x - a, (y - 1) - (b - 1))));
            }
        }
        if taken_square(cells, x, y, d + 1) {
            if m == dl {
                assert forall|a: int, b: int| 0 <= a < m + 1 && 0 <= b < m + 1
                    implies in_bounds((x - 1) - a, y - b) && !field_free(#[trigger] cell(cells, (x - 1) - a, y - b)) by {
                    assert(in_bounds(x - (a + 1), y - b) && !field_free(cell(cells, x - (a + 1), y - b)));
                }
                assert(taken_square(cells, x - 1, y, dl + 1));
            } else if m == du {
                assert forall|a: int, b: int| 0 <= a < m + 1 && 0 <= b < m + 1
                    implies in_bounds(x - a, (y - 1) - b) && !field_free(#[trigger] cell(cells, x - a, (y - 1) - b)) by {
                    assert(in_bounds(x - a, y - (b + 1)) && !field_free(cell(cells, x - a, y - (b + 1))));
                }
                assert(taken_square(cells, x, y - 1, du + 1));
            } else {
                assert forall|a: int, b: int| 0 <= a < m + 1 && 0 <= b < m + 1
                    implies in_bounds((x - 1) - a, (y - 1) - b) && !field_free(#[trigger] cell(cells, (x - 1) - a, (y - 1) - b)) by {
                    assert(in_bounds(x - (a + 1), y - (b + 1)) && !field_free(cell(cells, x - (a + 1), y - (b + 1))));
                }
                assert(taken_square(cells, x - 1, y - 1, dd + 1));
            }
        }
    }
}

/// Where the largest recurrence value over the first `k` cells is found.
proof fn lemma_max_square_witness(cells: Seq<Field>, k: int) -> (q: int)
    requires
        0 < k <= CELLS,
    ensures
        0 <= q < k,
        square_dp(cells, q / 11, q % 11) == max_square_upto(cells, k),
        forall|p: int| 0 <= p < k ==> square_dp(cells, #[trigger] (p / 11), p % 11) <= max_square_upto(cells, k),
    decreases k,
{
    if k == 1 {
        assert(max_square_upto(cells, 0) == 0);
        assert(0int / 11 == 0 && 0int % 11 == 0);
        assert(max_square_upto(cells, 1) == square_dp(cells, 0, 0));
        0
    } else {
        let q0 = lemma_max_square_witness(cells, k - 1);
        let d = square_dp(cells, (k - 1) / 11, (k - 1) % 11);
        if d > max_square_upto(cells, k - 1) { k - 1 } else { q0 }
    }
}

/// The largest recurrence value is the edge of the largest taken square.
pub proof fn lemma_largest_square_value(cells: Seq<Field>)
    requires
        cells.len() == CELLS,
    ensures
        is_largest_square(cells, max_square_upto(cells, CELLS as int)),
        largest_square(cells) == max_square_upto(cells, CELLS as int),
{
    let r = max_square_upto(cells, CELLS as int);
    let q = lemma_max_square_witness(cells, CELLS as int);
    lemma_pos_idx(q);
    lemma_square_dp_meaning(cells, q / 11, q % 11);
    assert(in_bounds(q / 11, q % 11) && taken_square(cells, q / 11, q % 11, r as int));
    assert forall|x: int, y: int, s: int| in_bounds(x, y) && #[trigger] taken_square(cells, x, y, s) implies s <= r by {
        lemma_idx_pos(x, y);
        let p = idx(x, y);
        assert(p / 11 == x && p % 11 == y);
        lemma_square_dp_meaning(cells, x, y);
        let d = square_dp(cells, x, y) as int;
        assert(d <= r);
        if s > d {
            assert forall|a: int, b: int| 0 <= a < d + 1 && 0 <= b < d + 1
                implies in_bounds(x - a, y - b) && !field_free(#[trigger] cell(cells, x - a, y - b)) by {
                assert(0 <= a < s && 0 <= b < s);
            }
        }
    }
    assert(is_largest_square(cells, r));
    let c = largest_square(cells);
    assert(is_largest_square(cells, c));
    let (x1, y1) = choose|x: int, y: int| in_bounds(x, y) && taken_square(cells, x, y, c as int);
    assert(taken_square(cells, x1, y1, c as int));
    assert(c <= r);
    assert(taken_square(cells, q / 11, q % 11, r as int));
    assert(r <= c);
}

} // verus!
