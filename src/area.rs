//! Cultivation and the bookkeeping of connected areas; coin collection.
use vstd::prelude::*;
use crate::coordinate::Coordinate;
use crate::geometry::{Geometry, valid_offsets, offset_walk, walk_reaches, connected_offsets};
use crate::grid::{Grid, id_walk, id_linked, areas_connected, row_major, row_major_pos, lemma_row_major_index, free_at, neighbors_spec, cultivated_pred, CELLS, SIZE, adjacent, cell, count_cells, has_id, id_of, idx, in_bounds, is_cultivated, kind_of, lemma_count_update, lemma_count_le, lemma_idx_pos, lemma_pos_idx, members_of, pos_of, accepts_at};
use crate::terrain::{AreaID, AreaInfo, Cultivation, CultivationInformation, Field, Terrain};
use crate::shape::Shape;

verus! {

broadcast use vstd::std_specs::hash::group_hash_axioms;

/// `c` is one of the cells that `g` covers when anchored at `a`.
pub open spec fn covers(g: Seq<Coordinate>, a: Coordinate, c: Coordinate) -> bool {
    exists|k: int| 0 <= k < g.len() && a.x + g[k].x == c.x && a.y + #[trigger] g[k].y == c.y
}

/// The cell `f`, moved into area `id` with cultivation `kind`.
pub open spec fn relabeled(f: Field, kind: Cultivation, id: usize) -> Field {
    Field {
        cultivation: Some(CultivationInformation { cultivation: kind, area_id: AreaID(id) }),
        terrain: f.terrain,
        position: f.position,
    }
}

/// `p` is a walk from a cell that `g` covers at `a` through neighbouring
/// cells of area `n`.
pub open spec fn walk(cells: Seq<Field>, g: Seq<Coordinate>, a: Coordinate, n: usize, p: Seq<int>) -> bool {
    &&& p.len() > 0
    &&& covers(g, a, pos_of(p[0]))
    &&& forall|k: int| 0 <= k < p.len() ==> 0 <= #[trigger] p[k] < CELLS && has_id(cells[p[k]], n)
    &&& forall|k: int| 0 <= k < p.len() - 1 ==> adjacent(pos_of(#[trigger] p[k]), pos_of(p[k + 1]))
}

/// Cell `j` is reached from a covered cell by a walk through area `n`.
pub open spec fn linked(cells: Seq<Field>, g: Seq<Coordinate>, a: Coordinate, n: usize, j: int) -> bool {
    exists|p: Seq<int>| #[trigger] walk(cells, g, a, n, p) && p.last() == j
}

/// What cultivating `g` at `a` with `c` does to a well-formed board: the
/// covered cells get `c` and the next identifier; every other cell keeps its
/// terrain and its cultivation, and changes area only by joining that new
/// area; the counter moves on by one.
pub open spec fn cultivation_step(
    before: Grid,
    after: Grid,
    g: Seq<Coordinate>,
    a: Coordinate,
    c: Cultivation,
) -> bool {
    let n = before.next_id();
    &&& after.wf()
    &&& after.next_id() == n + 1
    &&& forall|i: int| 0 <= i < CELLS ==> (#[trigger] after.cells()[i]).terrain == before.cells()[i].terrain
    &&& forall|i: int| 0 <= i < CELLS && covers(g, a, pos_of(i)) ==> {
        &&& has_id(#[trigger] after.cells()[i], n as usize)
        &&& kind_of(after.cells()[i]) == c
    }
    &&& forall|i: int| 0 <= i < CELLS && !covers(g, a, pos_of(i)) ==> {
        &&& is_cultivated(#[trigger] after.cells()[i]) == is_cultivated(before.cells()[i])
        &&& is_cultivated(before.cells()[i]) ==> kind_of(after.cells()[i]) == kind_of(before.cells()[i])
        &&& is_cultivated(before.cells()[i]) && id_of(after.cells()[i]) != id_of(before.cells()[i])
            ==> id_of(after.cells()[i]) == n
    }
    &&& forall|j: int| 0 <= j < CELLS && has_id(#[trigger] after.cells()[j], n as usize)
        ==> linked(after.cells(), g, a, n as usize, j)
    &&& forall|j: int| 0 <= j < CELLS && !covers(g, a, pos_of(j)) && is_cultivated(#[trigger] before.cells()[j])
        && id_of(after.cells()[j]) != id_of(before.cells()[j]) ==> !after.areas().contains_key(id_of(before.cells()[j]))
    &&& forall|i: int, j: int| 0 <= i < CELLS && 0 <= j < CELLS && #[trigger] covers(g, a, pos_of(i))
        && adjacent(pos_of(i), pos_of(j)) && is_cultivated(#[trigger] before.cells()[j]) && kind_of(before.cells()[j]) == c
        ==> !after.areas().contains_key(id_of(before.cells()[j]))
}

pub proof fn lemma_members_nonempty(cells: Seq<Field>, id: usize, i: int)
    requires
        0 <= i < cells.len(),
        has_id(cells[i], id),
    ensures
        members_of(cells, id).len() > 0,
    decreases cells.len(),
{
    if i < cells.len() - 1 {
        lemma_members_nonempty(cells.drop_last(), id, i);
    }
}

pub proof fn lemma_members_same(s: Seq<Field>, t: Seq<Field>, id: usize)
    requires
        s.len() == t.len(),
        forall|i: int| 0 <= i < s.len() ==> has_id(#[trigger] s[i], id) == has_id(t[i], id),
        forall|i: int| 0 <= i < s.len() ==> (#[trigger] s[i]).position == t[i].position,
    ensures
        members_of(s, id) == members_of(t, id),
    decreases s.len(),
{
    if s.len() > 0 {
        lemma_members_same(s.drop_last(), t.drop_last(), id);
        assert(has_id(s[s.len() - 1], id) == has_id(t[t.len() - 1], id));
    }
}

pub proof fn lemma_count_same(s: Seq<Field>, t: Seq<Field>, p: spec_fn(Field) -> bool)
    requires
        s.len() == t.len(),
        forall|i: int| 0 <= i < s.len() ==> p(#[trigger] s[i]) == p(t[i]),
    ensures
        count_cells(s, p) == count_cells(t, p),
    decreases s.len(),
{
    if s.len() > 0 {
        lemma_count_same(s.drop_last(), t.drop_last(), p);
        assert(p(s[s.len() - 1]) == p(t[t.len() - 1]));
    }
}


pub open spec fn outside_pred(n: usize) -> spec_fn(Field) -> bool {
    |f: Field| !has_id(f, n)
}

/// Each cell keeps terrain, position, and kind; it changes area only by
/// joining `n`, and then its former area is recorded in `absorbed`.
#[verifier::opaque]
pub open spec fn flood_track(placed: Seq<Field>, cells: Seq<Field>, n: usize, absorbed: Seq<usize>) -> bool {
    forall|i: int| 0 <= i < CELLS ==> (#[trigger] cells[i]).terrain == placed[i].terrain
        && cells[i].position == placed[i].position
        && is_cultivated(cells[i]) == is_cultivated(placed[i])
        && (is_cultivated(placed[i]) ==> kind_of(cells[i]) == kind_of(placed[i]))
        && (id_of(cells[i]) != id_of(placed[i]) ==> has_id(cells[i], n) && absorbed.contains(id_of(placed[i])))
}

/// Cells of area `n` have kind `c`; identifiers lie in `1..=n`.
#[verifier::opaque]
pub open spec fn flood_ids(cells: Seq<Field>, n: usize, c: Cultivation) -> bool {
    &&& forall|i: int| 0 <= i < CELLS && has_id(#[trigger] cells[i], n) ==> kind_of(cells[i]) == c
    &&& forall|i: int| 0 <= i < CELLS && is_cultivated(#[trigger] cells[i]) ==> 1 <= id_of(cells[i]) <= n
}

/// The absorbed identifiers are older registered areas of kind `c`.
#[verifier::opaque]
pub open spec fn flood_absorbed(absorbed: Seq<usize>, n: usize, c: Cultivation, areas: Map<usize, AreaInfo>) -> bool {
    forall|a: int| 0 <= a < absorbed.len() ==> 1 <= #[trigger] absorbed[a] < n
        && areas.contains_key(absorbed[a]) && areas[absorbed[a]].kind == c
}

/// The queue holds distinct cells of area `n`.
#[verifier::opaque]
pub open spec fn flood_work(cells: Seq<Field>, n: usize, work: Seq<usize>) -> bool {
    &&& work.no_duplicates()
    &&& forall|w: int| 0 <= w < work.len() ==> (#[trigger] work[w]) < CELLS && has_id(cells[work[w] as int], n)
}

/// A cell of area `n` that is off the queue (and is not `e`) has all its
/// neighbours of kind `c` in area `n` too.
#[verifier::opaque]
pub open spec fn flood_front(cells: Seq<Field>, n: usize, c: Cultivation, work: Seq<usize>, e: int) -> bool {
    forall|i: int, j: int|
        0 <= i < CELLS && 0 <= j < CELLS && i != e && has_id(#[trigger] cells[i], n) && !work.contains(i as usize)
        && is_cultivated(#[trigger] cells[j]) && kind_of(cells[j]) == c && adjacent(pos_of(i), pos_of(j))
            ==> has_id(cells[j], n)
}

/// Every cell of area `n` is linked to a covered cell.
#[verifier::opaque]
pub open spec fn flood_linked(cells: Seq<Field>, g: Seq<Coordinate>, a: Coordinate, n: usize) -> bool {
    forall|j: int| 0 <= j < CELLS && has_id(#[trigger] cells[j], n) ==> linked(cells, g, a, n, j)
}

/// Neighbouring cells of one kind outside area `n` share an area.
#[verifier::opaque]
pub open spec fn flood_rest(cells: Seq<Field>, n: usize) -> bool {
    forall|i: int, j: int|
        0 <= i < CELLS && 0 <= j < CELLS && is_cultivated(#[trigger] cells[i]) && is_cultivated(#[trigger] cells[j])
        && !has_id(cells[i], n) && !has_id(cells[j], n)
        && kind_of(cells[i]) == kind_of(cells[j]) && adjacent(pos_of(i), pos_of(j))
            ==> id_of(cells[i]) == id_of(cells[j])
}

/// The covered cells hold `c` in area `n`; the others are as before.
pub open spec fn placed_from(old_cells: Seq<Field>, placed: Seq<Field>, g: Seq<Coordinate>, a: Coordinate, c: Cultivation, n: usize) -> bool {
    forall|i: int| 0 <= i < CELLS ==> #[trigger] placed[i] == if covers(g, a, pos_of(i)) {
        relabeled(old_cells[i], c, n)
    } else {
        old_cells[i]
    }
}

pub open spec fn flood_inv(
    before: Grid,
    placed: Seq<Field>,
    cells: Seq<Field>,
    g: Seq<Coordinate>,
    a: Coordinate,
    c: Cultivation,
    n: usize,
    work: Seq<usize>,
    absorbed: Seq<usize>,
    e: int,
) -> bool {
    &&& before.wf()
    &&& n == before.next_id()
    &&& cells.len() == CELLS
    &&& placed.len() == CELLS
    &&& placed_from(before.cells(), placed, g, a, c, n)
    &&& accepts_at(before.cells(), g, a, false)
    &&& flood_track(placed, cells, n, absorbed)
    &&& flood_ids(cells, n, c)
    &&& flood_absorbed(absorbed, n, c, before.areas())
    &&& flood_work(cells, n, work)
    &&& flood_front(cells, n, c, work, e)
    &&& flood_rest(cells, n)
    &&& flood_linked(cells, g, a, n)
}

/// Moving one cell of kind `c` from an older area into area `n`, queueing it
/// and recording its former area, keeps the flood invariant.
#[verifier::rlimit(40)]
pub proof fn lemma_absorb_step(
    before: Grid,
    placed: Seq<Field>,
    cells: Seq<Field>,
    g: Seq<Coordinate>,
    a: Coordinate,
    c: Cultivation,
    n: usize,
    work: Seq<usize>,
    absorbed: Seq<usize>,
    e: int,
    j: int,
)
    requires
        flood_inv(before, placed, cells, g, a, c, n, work, absorbed, e),
        0 <= j < CELLS,
        is_cultivated(cells[j]),
        kind_of(cells[j]) == c,
        id_of(cells[j]) < n,
        0 <= e < CELLS,
        has_id(cells[e], n),
        adjacent(pos_of(e), pos_of(j)),
    ensures
        flood_inv(before, placed, cells.update(j, relabeled(cells[j], c, n)), g, a, c, n,
            work.push(j as usize), absorbed.push(id_of(cells[j])), e),
        count_cells(cells.update(j, relabeled(cells[j], c, n)), outside_pred(n)) + 1 == count_cells(cells, outside_pred(n)),
{
    let cells1 = cells.update(j, relabeled(cells[j], c, n));
    let work1 = work.push(j as usize);
    let absorbed1 = absorbed.push(id_of(cells[j]));
    reveal(flood_track);
    reveal(flood_ids);
    reveal(flood_absorbed);
    reveal(flood_work);
    reveal(flood_front);
    reveal(flood_rest);
    lemma_count_update(cells, j, relabeled(cells[j], c, n), outside_pred(n));
    // the absorbed cell is untouched since placement, so it is an old cell
    assert(id_of(cells[j]) == id_of(placed[j]));
    assert(!covers(g, a, pos_of(j)));
    assert(placed[j] == before.cells()[j]);
    assert(absorbed1[absorbed.len() as int] == id_of(cells[j]));
    assert forall|i: int| 0 <= i < CELLS implies (#[trigger] cells1[i]).terrain == placed[i].terrain
        && cells1[i].position == placed[i].position
        && is_cultivated(cells1[i]) == is_cultivated(placed[i])
        && (is_cultivated(placed[i]) ==> kind_of(cells1[i]) == kind_of(placed[i]))
        && (id_of(cells1[i]) != id_of(placed[i]) ==> has_id(cells1[i], n) && absorbed1.contains(id_of(placed[i]))) by {
        if i != j && id_of(cells1[i]) != id_of(placed[i]) {
            assert(absorbed.contains(id_of(placed[i])));
            let w = choose|w: int| 0 <= w < absorbed.len() && absorbed[w] == id_of(placed[i]);
            assert(absorbed1[w] == absorbed[w]);
        }
        if i == j {
            assert(absorbed1[absorbed.len() as int] == id_of(placed[i]));
        }
    }
    assert(flood_track(placed, cells1, n, absorbed1));
    assert(flood_ids(cells1, n, c));
    assert forall|k: int| 0 <= k < absorbed1.len() implies 1 <= #[trigger] absorbed1[k] < n
        && before.areas().contains_key(absorbed1[k]) && before.areas()[absorbed1[k]].kind == c by {
        if k == absorbed.len() {
            assert(is_cultivated(before.cells()[j]));
        }
    }
    assert(flood_absorbed(absorbed1, n, c, before.areas()));
    assert(!work.contains(j as usize));
    assert forall|w: int| 0 <= w < work1.len() implies (#[trigger] work1[w]) < CELLS && has_id(cells1[work1[w] as int], n) by {
        if w < work.len() {
            assert(work1[w] == work[w]);
        }
    }
    assert(work1.no_duplicates());
    assert(flood_work(cells1, n, work1));
    assert forall|i: int, k: int|
        0 <= i < CELLS && 0 <= k < CELLS && i != e && has_id(#[trigger] cells1[i], n) && !work1.contains(i as usize)
        && is_cultivated(#[trigger] cells1[k]) && kind_of(cells1[k]) == c && adjacent(pos_of(i), pos_of(k))
            implies has_id(cells1[k], n) by {
        assert(work1[work.len() as int] == j as usize);
        assert(work1.contains(j as usize));
        assert(i != j);
        if !work.contains(i as usize) {
        } else {
            let w = choose|w: int| 0 <= w < work.len() && work[w] == i as usize;
            assert(work1[w] == work[w]);
        }
        if k != j {
            assert(cells1[k] == cells[k]);
        }
    }
    assert(flood_front(cells1, n, c, work1, e));
    assert(flood_rest(cells1, n));
    assert(has_id(cells[e], n));
    lemma_absorb_linked(cells, g, a, c, n, e, j);
    assert(flood_linked(cells1, g, a, n));
}


/// After the four neighbours of cell `i` at `(x, y)` were offered to area `n`
/// in turn, each neighbour of kind `c` lies in area `n`.
proof fn lemma_expand_closes(
    c0: Seq<Field>,
    c1: Seq<Field>,
    c2: Seq<Field>,
    c3: Seq<Field>,
    c4: Seq<Field>,
    w4: Seq<usize>,
    n: usize,
    c: Cultivation,
    i: int,
    x: int,
    y: int,
)
    requires
        0 <= i < CELLS,
        x == pos_of(i).x && y == pos_of(i).y,
        c0.len() == CELLS && c1.len() == CELLS && c2.len() == CELLS && c3.len() == CELLS && c4.len() == CELLS,
        has_id(c0[i], n),
        flood_front(c4, n, c, w4, i),
        flood_ids(c4, n, c),
        forall|k: int| 0 <= k < CELLS && has_id(c0[k], n) ==> has_id(#[trigger] c1[k], n),
        forall|k: int| 0 <= k < CELLS && has_id(c1[k], n) ==> has_id(#[trigger] c2[k], n),
        forall|k: int| 0 <= k < CELLS && has_id(c2[k], n) ==> has_id(#[trigger] c3[k], n),
        forall|k: int| 0 <= k < CELLS && has_id(c3[k], n) ==> has_id(#[trigger] c4[k], n),
        forall|k: int| 0 <= k < CELLS ==> (is_cultivated(#[trigger] c4[k]) == is_cultivated(c0[k])),
        in_bounds(x, y + 1) ==> (is_cultivated(cell(c0, x, y + 1)) && kind_of(cell(c0, x, y + 1)) == c ==> has_id(cell(c1, x, y + 1), n)),
        in_bounds(x, y - 1) ==> (is_cultivated(cell(c1, x, y - 1)) && kind_of(cell(c1, x, y - 1)) == c ==> has_id(cell(c2, x, y - 1), n)),
        in_bounds(x + 1, y) ==> (is_cultivated(cell(c2, x + 1, y)) && kind_of(cell(c2, x + 1, y)) == c ==> has_id(cell(c3, x + 1, y), n)),
        in_bounds(x - 1, y) ==> (is_cultivated(cell(c3, x - 1, y)) && kind_of(cell(c3, x - 1, y)) == c ==> has_id(cell(c4, x - 1, y), n)),
        forall|k: int| 0 <= k < CELLS ==> (is_cultivated(#[trigger] c1[k]) == is_cultivated(c0[k]) && (is_cultivated(c0[k]) ==> kind_of(c1[k]) == kind_of(c0[k]))),
        forall|k: int| 0 <= k < CELLS ==> (is_cultivated(#[trigger] c2[k]) == is_cultivated(c0[k]) && (is_cultivated(c0[k]) ==> kind_of(c2[k]) == kind_of(c0[k]))),
        forall|k: int| 0 <= k < CELLS ==> (is_cultivated(#[trigger] c3[k]) == is_cultivated(c0[k]) && (is_cultivated(c0[k]) ==> kind_of(c3[k]) == kind_of(c0[k]))),
        forall|k: int| 0 <= k < CELLS ==> (is_cultivated(#[trigger] c4[k]) == is_cultivated(c0[k]) && (is_cultivated(c0[k]) ==> kind_of(c4[k]) == kind_of(c0[k]))),
    ensures
        flood_front(c4, n, c, w4, -1),
{
    reveal(flood_front);
    assert forall|k: int| 0 <= k < CELLS && is_cultivated(c4[k]) && kind_of(c4[k]) == c
        && adjacent(pos_of(i), pos_of(k)) implies has_id(#[trigger] c4[k], n) by {
        lemma_pos_idx(k);
        let kx = pos_of(k).x as int;
        let ky = pos_of(k).y as int;
        assert(k == idx(kx, ky));
        if kx == x && ky == y + 1 {
            assert(has_id(c1[k], n));
            assert(has_id(c2[k], n));
            assert(has_id(c3[k], n));
        } else if kx == x && ky == y - 1 {
            assert(has_id(c2[k], n));
            assert(has_id(c3[k], n));
        } else if kx == x + 1 && ky == y {
            assert(has_id(c3[k], n));
        } else {
            assert(kx == x - 1 && ky == y);
        }
    }
    assert forall|ii: int, k: int|
        0 <= ii < CELLS && 0 <= k < CELLS && ii != -1 && has_id(#[trigger] c4[ii], n) && !w4.contains(ii as usize)
        && is_cultivated(#[trigger] c4[k]) && kind_of(c4[k]) == c && adjacent(pos_of(ii), pos_of(k))
            implies has_id(c4[k], n) by {
        if ii == i {
            assert(is_cultivated(c4[k]) && kind_of(c4[k]) == c && adjacent(pos_of(i), pos_of(k)));
        }
    }
}



proof fn lemma_id_walk_reverse(cells: Seq<Field>, id: usize, p: Seq<int>)
    requires
        id_walk(cells, id, p),
    ensures
        id_walk(cells, id, p.reverse()),
        p.reverse()[0] == p.last(),
        p.reverse().last() == p[0],
{
    let r = p.reverse();
    assert forall|k: int| 0 <= k < r.len() implies 0 <= #[trigger] r[k] < CELLS && has_id(cells[r[k]], id) by {
        assert(r[k] == p[p.len() - 1 - k]);
    }
    assert forall|k: int| 0 <= k < r.len() - 1 implies adjacent(pos_of(#[trigger] r[k]), pos_of(r[k + 1])) by {
        assert(r[k] == p[p.len() - 1 - k] && r[k + 1] == p[p.len() - 2 - k]);
        assert(adjacent(pos_of(p[p.len() - 2 - k]), pos_of(p[p.len() - 1 - k])));
    }
}

proof fn lemma_id_walk_join(cells: Seq<Field>, id: usize, p: Seq<int>, q: Seq<int>)
    requires
        id_walk(cells, id, p),
        id_walk(cells, id, q),
        p.last() == q[0],
    ensures
        id_walk(cells, id, p + q.subrange(1, q.len() as int)),
        (p + q.subrange(1, q.len() as int))[0] == p[0],
        (p + q.subrange(1, q.len() as int)).last() == q.last(),
{
    let w = p + q.subrange(1, q.len() as int);
    assert forall|k: int| 0 <= k < w.len() implies 0 <= #[trigger] w[k] < CELLS && has_id(cells[w[k]], id) by {
        if k < p.len() {
            assert(w[k] == p[k]);
        } else {
            assert(w[k] == q[k - p.len() + 1]);
        }
    }
    assert forall|k: int| 0 <= k < w.len() - 1 implies adjacent(pos_of(#[trigger] w[k]), pos_of(w[k + 1])) by {
        if k < p.len() - 1 {
            assert(w[k] == p[k] && w[k + 1] == p[k + 1]);
        } else if k == p.len() - 1 {
            assert(w[k] == q[0] && w[k + 1] == q[1]);
        } else {
            assert(w[k] == q[k - p.len() + 1] && w[k + 1] == q[k - p.len() + 2]);
        }
    }
    if q.len() == 1 {
        assert(w.last() == p.last());
    } else {
        assert(w.last() == q[q.len() - 1]);
    }
}

/// In a finished flood, once a cell of an older area has joined area `n`,
/// every cell of that older area has.
proof fn lemma_spread(
    before: Grid,
    placed: Seq<Field>,
    cells: Seq<Field>,
    g: Seq<Coordinate>,
    a: Coordinate,
    c: Cultivation,
    n: usize,
    absorbed: Seq<usize>,
    u: int,
    v: int,
)
    requires
        flood_inv(before, placed, cells, g, a, c, n, seq![], absorbed, -1),
        0 <= u < CELLS,
        0 <= v < CELLS,
        is_cultivated(before.cells()[u]),
        is_cultivated(before.cells()[v]),
        id_of(before.cells()[u]) == id_of(before.cells()[v]),
        has_id(cells[u], n),
    ensures
        has_id(cells[v], n),
{
    let old_cells = before.cells();
    reveal(areas_connected);
    let b = id_of(old_cells[u]);
    assert(id_linked(old_cells, b, u, v));
    let p = choose|p: Seq<int>| #[trigger] id_walk(old_cells, b, p) && p[0] == u && p.last() == v;
    lemma_spread_walk(before, placed, cells, g, a, c, n, absorbed, p, p.len() - 1);
}

proof fn lemma_spread_walk(
    before: Grid,
    placed: Seq<Field>,
    cells: Seq<Field>,
    g: Seq<Coordinate>,
    a: Coordinate,
    c: Cultivation,
    n: usize,
    absorbed: Seq<usize>,
    p: Seq<int>,
    k: int,
)
    requires
        flood_inv(before, placed, cells, g, a, c, n, seq![], absorbed, -1),
        id_walk(before.cells(), id_of(before.cells()[p[0]]), p),
        has_id(cells[p[0]], n),
        0 <= k < p.len(),
    ensures
        has_id(cells[p[k]], n),
    decreases k,
{
    reveal(flood_track);
    reveal(flood_ids);
    reveal(flood_front);
    let old_cells = before.cells();
    let b = id_of(old_cells[p[0]]);
    if k > 0 {
        lemma_spread_walk(before, placed, cells, g, a, c, n, absorbed, p, k - 1);
        let u = p[k - 1];
        let v = p[k];
        assert(has_id(old_cells[v], b) && has_id(old_cells[p[0]], b));
        // cells of one old area share a kind; the first one joined, so it is `c`
        assert(kind_of(old_cells[v]) == before.areas()[b].kind);
        assert(kind_of(old_cells[p[0]]) == before.areas()[b].kind);
        assert(!covers(g, a, pos_of(p[0]))) by {
            if covers(g, a, pos_of(p[0])) {
                let t = choose|t: int| 0 <= t < g.len() && a.x + g[t].x == pos_of(p[0]).x && a.y + #[trigger] g[t].y == pos_of(p[0]).y;
                lemma_pos_idx(p[0]);
                assert(crate::grid::free_at(old_cells, a.x + g[t].x, a.y + g[t].y));
            }
        }
        assert(placed[p[0]] == old_cells[p[0]]);
        assert(kind_of(cells[p[0]]) == c);
        assert(!covers(g, a, pos_of(v))) by {
            if covers(g, a, pos_of(v)) {
                let t = choose|t: int| 0 <= t < g.len() && a.x + g[t].x == pos_of(v).x && a.y + #[trigger] g[t].y == pos_of(v).y;
                lemma_pos_idx(v);
                assert(crate::grid::free_at(old_cells, a.x + g[t].x, a.y + g[t].y));
            }
        }
        assert(placed[v] == old_cells[v]);
        assert(is_cultivated(cells[v]) && kind_of(cells[v]) == c);
        assert(adjacent(pos_of(u), pos_of(v)));
        assert(!seq![].contains(u as usize));
    }
}

/// Every cell of area `n` is linked through area `n` to the cell where the
/// first offset lands.
proof fn lemma_rooted(cells: Seq<Field>, g: Seq<Coordinate>, a: Coordinate, n: usize, j: int)
    requires
        cells.len() == CELLS,
        valid_offsets(g),
        forall|t: int| 0 <= t < g.len() ==> in_bounds(a.x + g[t].x, a.y + #[trigger] g[t].y),
        forall|i: int| 0 <= i < CELLS && covers(g, a, pos_of(i)) ==> has_id(#[trigger] cells[i], n),
        0 <= j < CELLS,
        linked(cells, g, a, n, j),
    ensures
        id_linked(cells, n, idx(a.x + g[0].x, a.y + g[0].y), j),
{
    let p = choose|p: Seq<int>| #[trigger] walk(cells, g, a, n, p) && p.last() == j;
    assert(id_walk(cells, n, p));
    let t = choose|t: int| 0 <= t < g.len() && a.x + g[t].x == pos_of(p[0]).x && a.y + #[trigger] g[t].y == pos_of(p[0]).y;
    reveal(connected_offsets);
    assert(walk_reaches(g, t));
    let w = choose|w: Seq<int>| #[trigger] offset_walk(g, w) && w.last() == t;
    let cw = Seq::new(w.len(), |z: int| idx(a.x + g[w[z]].x, a.y + g[w[z]].y));
    assert forall|z: int| 0 <= z < cw.len() implies 0 <= #[trigger] cw[z] < CELLS && has_id(cells[cw[z]], n)
        && pos_of(cw[z]).x == a.x + g[w[z]].x && pos_of(cw[z]).y == a.y + g[w[z]].y by {
        assert(0 <= w[z] < g.len());
        assert(in_bounds(a.x + g[w[z]].x, a.y + g[w[z]].y));
        lemma_idx_pos(a.x + g[w[z]].x, a.y + g[w[z]].y);
        assert(covers(g, a, pos_of(cw[z])));
    }
    assert forall|z: int| 0 <= z < cw.len() - 1 implies adjacent(pos_of(#[trigger] cw[z]), pos_of(cw[z + 1])) by {
        assert(0 <= w[z] < g.len() && 0 <= w[z + 1] < g.len());
        assert(adjacent(g[w[z]], g[w[z + 1]]));
    }
    assert(id_walk(cells, n, cw));
    lemma_pos_idx(p[0]);
    assert(cw.last() == p[0]);
    lemma_id_walk_join(cells, n, cw, p);
}


/// After the flood every area is edge-connected: the new one through the
/// covered cells, each older one because it either joined whole or is
/// untouched.
#[verifier::rlimit(40)]
proof fn lemma_after_connected(
    before: Grid,
    placed: Seq<Field>,
    cells: Seq<Field>,
    g: Seq<Coordinate>,
    a: Coordinate,
    c: Cultivation,
    n: usize,
    absorbed: Seq<usize>,
)
    requires
        flood_inv(before, placed, cells, g, a, c, n, seq![], absorbed, -1),
        valid_offsets(g),
    ensures
        areas_connected(cells),
{
    let old_cells = before.cells();
    reveal(flood_track);
    reveal(flood_ids);
    reveal(flood_linked);
    assert forall|t: int| 0 <= t < g.len() implies in_bounds(a.x + g[t].x, a.y + #[trigger] g[t].y) by {
        assert(crate::grid::free_at(old_cells, a.x + g[t].x, a.y + g[t].y));
    }
    assert forall|i: int| 0 <= i < CELLS && covers(g, a, pos_of(i)) implies has_id(#[trigger] cells[i], n) by {
        assert(has_id(placed[i], n));
    }
    let r0 = idx(a.x + g[0].x, a.y + g[0].y);
    reveal(areas_connected);
    assert forall|i: int, j: int|
        0 <= i < CELLS && 0 <= j < CELLS && is_cultivated(#[trigger] cells[i]) && is_cultivated(#[trigger] cells[j])
            && id_of(cells[i]) == id_of(cells[j]) implies id_linked(cells, id_of(cells[i]), i, j) by {
        let b = id_of(cells[i]);
        if b == n {
            lemma_rooted(cells, g, a, n, i);
            lemma_rooted(cells, g, a, n, j);
            let pi = choose|p: Seq<int>| #[trigger] id_walk(cells, n, p) && p[0] == r0 && p.last() == i;
            let pj = choose|p: Seq<int>| #[trigger] id_walk(cells, n, p) && p[0] == r0 && p.last() == j;
            lemma_id_walk_reverse(cells, n, pi);
            lemma_id_walk_join(cells, n, pi.reverse(), pj);
        } else {
            // both cells kept their old area
            assert(id_of(placed[i]) == b && id_of(placed[j]) == b);
            assert(!has_id(placed[i], n) && !has_id(placed[j], n));
            assert(placed[i] == old_cells[i] && placed[j] == old_cells[j]);
            assert(id_linked(old_cells, b, i, j));
            let p = choose|p: Seq<int>| #[trigger] id_walk(old_cells, b, p) && p[0] == i && p.last() == j;
            assert forall|k: int| 0 <= k < p.len() implies 0 <= #[trigger] p[k] < CELLS && has_id(cells[p[k]], b) by {
                let v = p[k];
                assert(has_id(old_cells[v], b));
                if has_id(cells[v], n) {
                    lemma_spread(before, placed, cells, g, a, c, n, absorbed, v, i);
                }
                assert(!has_id(placed[v], n));
                assert(placed[v] == old_cells[v]);
            }
            assert(id_walk(cells, b, p));
        }
    }
}

/// In a finished flood, an older area that lost a cell to area `n` lost them
/// all.
proof fn lemma_absorbed_gone(
    before: Grid,
    placed: Seq<Field>,
    cells: Seq<Field>,
    g: Seq<Coordinate>,
    a: Coordinate,
    c: Cultivation,
    n: usize,
    absorbed: Seq<usize>,
    j: int,
    v: int,
)
    requires
        flood_inv(before, placed, cells, g, a, c, n, seq![], absorbed, -1),
        0 <= j < CELLS,
        0 <= v < CELLS,
        is_cultivated(before.cells()[j]),
        has_id(cells[j], n),
    ensures
        !has_id(cells[v], id_of(before.cells()[j])),
{
    reveal(flood_track);
    reveal(flood_ids);
    let old_cells = before.cells();
    let b = id_of(old_cells[j]);
    assert(b < n);
    if has_id(cells[v], b) {
        assert(!has_id(cells[v], n));
        assert(id_of(placed[v]) == b);
        assert(!has_id(placed[v], n));
        assert(placed[v] == old_cells[v]);
        lemma_spread(before, placed, cells, g, a, c, n, absorbed, j, v);
    }
}


/// After the flood, every older area that lost a cell to area `n` is gone
/// from the registry, in particular each area of kind `c` next to a covered
/// cell.
proof fn lemma_registry_shrinks(
    before: Grid,
    placed: Seq<Field>,
    after: Grid,
    g: Seq<Coordinate>,
    a: Coordinate,
    c: Cultivation,
    n: usize,
    absorbed: Seq<usize>,
)
    requires
        flood_inv(before, placed, after.cells(), g, a, c, n, seq![], absorbed, -1),
        after.wf(),
    ensures
        forall|j: int| 0 <= j < CELLS && !covers(g, a, pos_of(j)) && is_cultivated(#[trigger] before.cells()[j])
            && id_of(after.cells()[j]) != id_of(before.cells()[j]) ==> !after.areas().contains_key(id_of(before.cells()[j])),
        forall|i: int, j: int| 0 <= i < CELLS && 0 <= j < CELLS && #[trigger] covers(g, a, pos_of(i))
            && adjacent(pos_of(i), pos_of(j)) && is_cultivated(#[trigger] before.cells()[j]) && kind_of(before.cells()[j]) == c
            ==> !after.areas().contains_key(id_of(before.cells()[j])),
{
    reveal(flood_track);
    reveal(flood_ids);
    let old_cells = before.cells();
    let cells = after.cells();
    // every older area that lost a cell is gone from the registry
    assert forall|j: int| 0 <= j < CELLS && !covers(g, a, pos_of(j)) && is_cultivated(#[trigger] old_cells[j])
        && id_of(cells[j]) != id_of(old_cells[j]) implies !after.areas().contains_key(id_of(old_cells[j])) by {
        let b = id_of(old_cells[j]);
        assert(placed[j] == old_cells[j]);
        assert(has_id(cells[j], n));
        if after.areas().contains_key(b) {
            let v = crate::ranking::member_cell(cells, b);
            crate::ranking::lemma_member_cell_spec(cells, b);
            lemma_absorbed_gone(before, placed, cells, g, a, c, n, absorbed, j, v);
        }
    }
    assert forall|i: int, j: int| 0 <= i < CELLS && 0 <= j < CELLS && #[trigger] covers(g, a, pos_of(i))
        && adjacent(pos_of(i), pos_of(j)) && is_cultivated(#[trigger] old_cells[j]) && kind_of(old_cells[j]) == c
        implies !after.areas().contains_key(id_of(old_cells[j])) by {
        assert(!covers(g, a, pos_of(j))) by {
            if covers(g, a, pos_of(j)) {
                let t = choose|t: int| 0 <= t < g.len() && a.x + g[t].x == pos_of(j).x && a.y + #[trigger] g[t].y == pos_of(j).y;
                lemma_pos_idx(j);
                assert(crate::grid::free_at(old_cells, a.x + g[t].x, a.y + g[t].y));
            }
        }
        assert(placed[j] == old_cells[j]);
        assert(has_id(placed[i], n));
        assert(has_id(cells[i], n));
        assert(is_cultivated(cells[j]) && kind_of(cells[j]) == c);
        assert(id_of(cells[i]) == id_of(cells[j]));
        assert(id_of(cells[j]) != id_of(old_cells[j]));
    }
}

/// Once the queue is empty and the touched areas were re-read, the board is
/// well formed again and differs from `before` as cultivating says.
#[verifier::rlimit(60)]
proof fn lemma_flood_done(
    before: Grid,
    placed: Seq<Field>,
    after: Grid,
    g: Seq<Coordinate>,
    a: Coordinate,
    c: Cultivation,
    n: usize,
    absorbed: Seq<usize>,
)
    requires
        flood_inv(before, placed, after.cells(), g, a, c, n, seq![], absorbed, -1),
        valid_offsets(g),
        count_cells(placed, cultivated_pred()) >= count_cells(before.cells(), cultivated_pred()) + 1,
        after.next_id() == n + 1,
        forall|id: usize| (id == n || absorbed.contains(id)) ==> {
            &&& (#[trigger] after.areas().contains_key(id)) == (members_of(after.cells(), id).len() > 0)
            &&& after.areas().contains_key(id) ==> after.areas()[id].kind == c
                && after.areas()[id].field_coords@ == members_of(after.cells(), id)
        },
        forall|id: usize| !(id == n || absorbed.contains(id)) ==> {
            &&& (#[trigger] after.areas().contains_key(id)) == before.areas().contains_key(id)
            &&& after.areas().contains_key(id) ==> after.areas()[id] == before.areas()[id]
        },
    ensures
        cultivation_step(before, after, g, a, c),
{
    reveal(flood_track);
    reveal(flood_ids);
    reveal(flood_absorbed);
    reveal(flood_front);
    reveal(flood_rest);
    reveal(flood_linked);
    let old_cells = before.cells();
    let cells = after.cells();
    assert(after.layout_ok());
    lemma_count_same(placed, cells, cultivated_pred());
    // uncovered cells of `placed` are the old cells
    assert forall|i: int| 0 <= i < CELLS && is_cultivated(#[trigger] cells[i]) implies {
        &&& after.areas().contains_key(id_of(cells[i]))
        &&& after.areas()[id_of(cells[i])].kind == kind_of(cells[i])
        &&& 1 <= id_of(cells[i]) < after.next_id()
    } by {
        let b = id_of(cells[i]);
        if b == n {
            lemma_members_nonempty(cells, b, i);
            assert(after.areas().contains_key(b));
        } else {
            assert(id_of(placed[i]) == b);
            assert(!covers(g, a, pos_of(i)));
            assert(placed[i] == old_cells[i]);
            assert(is_cultivated(old_cells[i]));
            assert(before.areas().contains_key(b));
            assert(before.areas()[b].kind == kind_of(old_cells[i]));
            assert(kind_of(cells[i]) == kind_of(old_cells[i]));
            if absorbed.contains(b) {
                lemma_members_nonempty(cells, b, i);
                assert(after.areas().contains_key(b));
                let w = choose|w: int| 0 <= w < absorbed.len() && absorbed[w] == b;
                assert(before.areas()[absorbed[w]].kind == c);
            } else {
                assert(after.areas().contains_key(b) == before.areas().contains_key(b));
                assert(after.areas()[b] == before.areas()[b]);
            }
        }
    }
    assert forall|id: usize| #[trigger] after.areas().contains_key(id) implies {
        &&& after.areas()[id].field_coords@ == members_of(cells, id)
        &&& members_of(cells, id).len() > 0
    } by {
        if !(id == n || absorbed.contains(id)) {
            assert forall|k: int| 0 <= k < cells.len() implies has_id(#[trigger] cells[k], id) == has_id(old_cells[k], id) by {
                if has_id(cells[k], id) {
                    assert(id_of(placed[k]) == id);
                    assert(!covers(g, a, pos_of(k)));
                }
                if has_id(old_cells[k], id) {
                    if covers(g, a, pos_of(k)) {
                        let w = choose|w: int| 0 <= w < g.len() && a.x + g[w].x == pos_of(k).x && a.y + #[trigger] g[w].y == pos_of(k).y;
                        lemma_pos_idx(k);
                        assert(crate::grid::free_at(old_cells, a.x + g[w].x, a.y + g[w].y));
                    }
                    assert(placed[k] == old_cells[k]);
                }
            }
            assert forall|k: int| 0 <= k < cells.len() implies (#[trigger] cells[k]).position == old_cells[k].position by {
                assert(placed[k].position == old_cells[k].position);
            }
            lemma_members_same(cells, old_cells, id);
        }
    }
    assert forall|i: int, j: int|
        0 <= i < CELLS && 0 <= j < CELLS && is_cultivated(#[trigger] cells[i]) && is_cultivated(#[trigger] cells[j])
        && kind_of(cells[i]) == kind_of(cells[j]) && adjacent(pos_of(i), pos_of(j))
            implies id_of(cells[i]) == id_of(cells[j]) by {
        if has_id(cells[i], n) {
            assert(has_id(cells[j], n));
        } else if has_id(cells[j], n) {
            assert(adjacent(pos_of(j), pos_of(i)));
            assert(has_id(cells[i], n));
        }
    }
    lemma_after_connected(before, placed, cells, g, a, c, n, absorbed);
    assert(after.wf());
    lemma_registry_shrinks(before, placed, after, g, a, c, n, absorbed);
    assert forall|i: int| 0 <= i < CELLS && covers(g, a, pos_of(i)) implies {
        &&& has_id(#[trigger] cells[i], n as usize)
        &&& kind_of(cells[i]) == c
    } by {
        assert(has_id(placed[i], n));
    }
    assert forall|i: int| 0 <= i < CELLS && !covers(g, a, pos_of(i)) implies {
        &&& is_cultivated(#[trigger] cells[i]) == is_cultivated(old_cells[i])
        &&& is_cultivated(old_cells[i]) ==> kind_of(cells[i]) == kind_of(old_cells[i])
        &&& is_cultivated(old_cells[i]) && id_of(cells[i]) != id_of(old_cells[i]) ==> id_of(cells[i]) == n
    } by {
        assert(placed[i] == old_cells[i]);
    }
    reveal(cultivation_step);
}


/// Where the offsets `g` land when anchored at `a`.
pub open spec fn placed_cells(g: Seq<Coordinate>, a: Coordinate) -> Seq<Coordinate> {
    g.map_values(|o: Coordinate| Coordinate { x: (a.x + o.x) as i32, y: (a.y + o.y) as i32 })
}

/// Number of cells that belong to area `id`.
pub open spec fn area_cell_count(cells: Seq<Field>, id: usize) -> nat {
    count_cells(cells, |f: Field| has_id(f, id))
}

proof fn lemma_members_len(cells: Seq<Field>, id: usize)
    ensures
        members_of(cells, id).len() == area_cell_count(cells, id),
    decreases cells.len(),
{
    if cells.len() > 0 {
        lemma_members_len(cells.drop_last(), id);
    }
}

/// On a well-formed board every registered area has as many members as
/// there are cells that name it.
pub proof fn lemma_area_sizes(g: Grid)
    requires
        g.wf(),
    ensures
        forall|id: usize| #[trigger] g.areas().contains_key(id)
            ==> g.areas()[id].field_coords@.len() == area_cell_count(g.cells(), id),
{
    assert forall|id: usize| #[trigger] g.areas().contains_key(id)
        implies g.areas()[id].field_coords@.len() == area_cell_count(g.cells(), id) by {
        lemma_members_len(g.cells(), id);
    }
}

/// No cell next to `(x, y)` is free.
pub open spec fn enclosed(cells: Seq<Field>, x: int, y: int) -> bool {
    !free_at(cells, x, y + 1) && !free_at(cells, x, y - 1) && !free_at(cells, x + 1, y) && !free_at(cells, x - 1, y)
}

/// A mountain whose coin is still there and that has no free neighbour.
pub open spec fn coin_ready(cells: Seq<Field>, f: Field) -> bool {
    f.terrain == Terrain::Mountain(true) && enclosed(cells, f.position.x as int, f.position.y as int)
}

/// Positions of the fields of `prefix` whose coin is ready on `cells`.
pub open spec fn ready_coins(prefix: Seq<Field>, cells: Seq<Field>) -> Seq<Coordinate>
    decreases prefix.len(),
{
    if prefix.len() == 0 {
        seq![]
    } else if coin_ready(cells, prefix.last()) {
        ready_coins(prefix.drop_last(), cells).push(prefix.last().position)
    } else {
        ready_coins(prefix.drop_last(), cells)
    }
}

/// What collecting coins does: every ready coin is taken and reported, row
/// by row (ascending `y`, then `x`); nothing else changes.
pub open spec fn coins_step(before: Grid, after: Grid, r: Seq<Coordinate>) -> bool {
    &&& after.wf()
    &&& after.areas() == before.areas()
    &&& after.next_id() == before.next_id()
    &&& r == ready_coins(row_major(before.cells()), before.cells())
    &&& forall|i: int| 0 <= i < CELLS ==> #[trigger] after.cells()[i] == if coin_ready(before.cells(), before.cells()[i]) {
        Field { terrain: Terrain::Mountain(false), ..before.cells()[i] }
    } else {
        before.cells()[i]
    }
}

proof fn lemma_ready_source(prefix: Seq<Field>, cells: Seq<Field>, c: Coordinate) -> (i: int)
    requires
        ready_coins(prefix, cells).contains(c),
    ensures
        0 <= i < prefix.len(),
        coin_ready(cells, prefix[i]),
        prefix[i].position == c,
    decreases prefix.len(),
{
    let rest = ready_coins(prefix.drop_last(), cells);
    if coin_ready(cells, prefix.last()) && prefix.last().position == c {
        prefix.len() - 1
    } else {
        if coin_ready(cells, prefix.last()) {
            let k = choose|k: int| 0 <= k < rest.push(prefix.last().position).len() && rest.push(prefix.last().position)[k] == c;
            assert(rest[k] == c);
        }
        lemma_ready_source(prefix.drop_last(), cells, c)
    }
}

/// A coin is reported at most once: after one collection, a later one on a
/// board with the same terrain reports none of the same places.
pub proof fn lemma_coins_once(g0: Grid, g1: Grid, r1: Seq<Coordinate>, g2: Grid, g3: Grid, r2: Seq<Coordinate>)
    requires
        g0.wf(),
        coins_step(g0, g1, r1),
        forall|i: int| 0 <= i < CELLS ==> (#[trigger] g2.cells()[i]).terrain == g1.cells()[i].terrain,
        g2.wf(),
        coins_step(g2, g3, r2),
    ensures
        forall|c: Coordinate| !(r1.contains(c) && r2.contains(c)),
{
    assert forall|c: Coordinate| !(r1.contains(c) && r2.contains(c)) by {
        if r1.contains(c) && r2.contains(c) {
            let ki = lemma_ready_source(row_major(g0.cells()), g0.cells(), c);
            let kj = lemma_ready_source(row_major(g2.cells()), g2.cells(), c);
            lemma_row_major_index(ki);
            lemma_row_major_index(kj);
            let i = idx(ki % 11, ki / 11);
            let j = idx(kj % 11, kj / 11);
            lemma_pos_idx(i);
            lemma_pos_idx(j);
            assert(g0.cells()[i].position == pos_of(i));
            assert(g2.cells()[j].position == pos_of(j));
            assert(i == j);
            assert(g1.cells()[i].terrain == Terrain::Mountain(false));
        }
    }
}

/// The in-bounds neighbours of `c`.
pub open spec fn nb_of(cells: Seq<Field>, c: Coordinate) -> Seq<Field> {
    neighbors_spec(cells, c.x as int, c.y as int)
}

/// One of the first `k` places of `members` has `f` among its neighbours.
pub open spec fn touched_by(cells: Seq<Field>, members: Seq<Coordinate>, k: int, f: Field) -> bool {
    exists|q: int| 0 <= q < k && #[trigger] nb_of(cells, members[q]).contains(f)
}

/// Some member of area `id` has `f` among its neighbours.
pub open spec fn area_touches(g: Grid, id: usize, f: Field) -> bool {
    g.areas().contains_key(id) && touched_by(g.cells(), g.areas()[id].field_coords@, g.areas()[id].field_coords@.len() as int, f)
}

proof fn lemma_touched_step(cells: Seq<Field>, members: Seq<Coordinate>, k: int, f: Field)
    requires
        0 <= k < members.len(),
    ensures
        touched_by(cells, members, k + 1, f) == (touched_by(cells, members, k, f) || nb_of(cells, members[k]).contains(f)),
{
    if touched_by(cells, members, k + 1, f) {
        let q = choose|q: int| 0 <= q < k + 1 && #[trigger] nb_of(cells, members[q]).contains(f);
    }
    if touched_by(cells, members, k, f) {
        let q = choose|q: int| 0 <= q < k && #[trigger] nb_of(cells, members[q]).contains(f);
        assert(0 <= q < k + 1);
    }
}


pub proof fn lemma_concat_contains<A>(a: Seq<A>, b: Seq<A>, x: A)
    ensures
        (a + b).contains(x) == (a.contains(x) || b.contains(x)),
{
    if (a + b).contains(x) {
        let i = choose|i: int| 0 <= i < (a + b).len() && (a + b)[i] == x;
        if i >= a.len() {
            assert(b[i - a.len()] == x);
        }
    }
    if a.contains(x) {
        let i = choose|i: int| 0 <= i < a.len() && a[i] == x;
        assert((a + b)[i] == x);
    }
    if b.contains(x) {
        let i = choose|i: int| 0 <= i < b.len() && b[i] == x;
        assert((a + b)[a.len() + i] == x);
    }
}

/// The distinct fields of `v`.
fn dedup_fields(v: &Vec<Field>) -> (r: Vec<Field>)
    ensures
        r@.no_duplicates(),
        forall|f: Field| r@.contains(f) <==> v@.contains(f),
{
    let mut r: Vec<Field> = Vec::new();
    let mut i: usize = 0;
    while i < v.len()
        invariant
            i <= v@.len(),
            r@.no_duplicates(),
            forall|f: Field| r@.contains(f) <==> v@.take(i as int).contains(f),
        decreases v@.len() - i,
    {
        let f = v[i];
        let mut present = false;
        let mut u: usize = 0;
        while u < r.len()
            invariant
                u <= r@.len(),
                present ==> r@.contains(f),
                !present ==> forall|q: int| 0 <= q < u ==> r@[q] != f,
            decreases r@.len() - u,
        {
            if r[u] == f {
                present = true;
                assert(r@[u as int] == f);
            }
            u += 1;
        }
        let ghost r1 = r@;
        if !present {
            r.push(f);
        }
        proof {
            assert(v@.take(i + 1) =~= v@.take(i as int) + seq![f]);
            if !present {
                assert(r@ =~= r1 + seq![f]);
            }
            assert forall|g: Field| r@.contains(g) <==> v@.take(i + 1).contains(g) by {
                lemma_concat_contains(v@.take(i as int), seq![f], g);
                if !present {
                    lemma_concat_contains(r1, seq![f], g);
                }
                assert(seq![f].contains(g) == (g == f)) by {
                    if g == f {
                        assert(seq![f][0] == g);
                    }
                }
            }
        }
        i += 1;
    }
    assert(v@.take(i as int) =~= v@);
    r
}


proof fn lemma_walk_mono(s: Seq<Field>, t: Seq<Field>, g: Seq<Coordinate>, a: Coordinate, n: usize, p: Seq<int>)
    requires
        walk(s, g, a, n, p),
        forall|m: int| 0 <= m < CELLS && has_id(#[trigger] s[m], n) ==> has_id(t[m], n),
    ensures
        walk(t, g, a, n, p),
{
    assert forall|k: int| 0 <= k < p.len() implies 0 <= #[trigger] p[k] < CELLS && has_id(t[p[k]], n) by {
        assert(has_id(s[p[k]], n));
    }
}

proof fn lemma_walk_push(t: Seq<Field>, g: Seq<Coordinate>, a: Coordinate, n: usize, p: Seq<int>, j: int)
    requires
        walk(t, g, a, n, p),
        0 <= j < CELLS,
        has_id(t[j], n),
        adjacent(pos_of(p.last()), pos_of(j)),
    ensures
        walk(t, g, a, n, p.push(j)),
{
    let q = p.push(j);
    assert forall|k: int| 0 <= k < q.len() implies 0 <= #[trigger] q[k] < CELLS && has_id(t[q[k]], n) by {
        if k < p.len() {
            assert(q[k] == p[k]);
        }
    }
    assert forall|k: int| 0 <= k < q.len() - 1 implies adjacent(pos_of(#[trigger] q[k]), pos_of(q[k + 1])) by {
        if k < p.len() - 1 {
            assert(q[k] == p[k] && q[k + 1] == p[k + 1]);
        } else {
            assert(q[k] == p.last() && q[k + 1] == j);
        }
    }
    assert(q[0] == p[0]);
}

/// Moving cell `j`, a neighbour of cell `e` of area `n`, into area `n` keeps
/// every cell of that area linked to a covered cell.
#[verifier::rlimit(30)]
proof fn lemma_absorb_linked(cells: Seq<Field>, g: Seq<Coordinate>, a: Coordinate, c: Cultivation, n: usize, e: int, j: int)
    requires
        cells.len() == CELLS,
        flood_linked(cells, g, a, n),
        0 <= e < CELLS,
        0 <= j < CELLS,
        has_id(cells[e], n),
        !has_id(cells[j], n),
        adjacent(pos_of(e), pos_of(j)),
    ensures
        flood_linked(cells.update(j, relabeled(cells[j], c, n)), g, a, n),
{
    let cells1 = cells.update(j, relabeled(cells[j], c, n));
    reveal(flood_linked);
    assert forall|m: int| 0 <= m < CELLS && has_id(#[trigger] cells[m], n) implies has_id(cells1[m], n) by {}
    assert forall|m: int| 0 <= m < CELLS && has_id(#[trigger] cells1[m], n) implies linked(cells1, g, a, n, m) by {
        if m == j {
            let pe = choose|p: Seq<int>| #[trigger] walk(cells, g, a, n, p) && p.last() == e;
            lemma_walk_mono(cells, cells1, g, a, n, pe);
            lemma_walk_push(cells1, g, a, n, pe, j);
            assert(pe.push(j).last() == j);
        } else {
            assert(has_id(cells[m], n));
            let pm = choose|p: Seq<int>| #[trigger] walk(cells, g, a, n, p) && p.last() == m;
            lemma_walk_mono(cells, cells1, g, a, n, pm);
        }
    }
}


/// Where the offsets of `geom` land at `coord`, given that they all land in
/// the grid.
fn placed_positions(geom: &Geometry, coord: &Coordinate, Ghost(cells): Ghost<Seq<Field>>) -> (r: Vec<Coordinate>)
    requires
        accepts_at(cells, geom@, *coord, false),
    ensures
        r@ == placed_cells(geom@, *coord),
{
    let ghost g = geom@;
    let offsets = geom.cells();
    let mut cs: Vec<Coordinate> = Vec::new();
    let mut k: usize = 0;
    while k < offsets.len()
        invariant
            offsets@ == g,
            accepts_at(cells, g, *coord, false),
            k <= g.len(),
            cs@ == placed_cells(g, *coord).take(k as int),
        decreases g.len() - k,
    {
        let o = offsets[k];
        assert(free_at(cells, coord.x + g[k as int].x, coord.y + g[k as int].y));
        cs.push(Coordinate { x: coord.x + o.x, y: coord.y + o.y });
        k += 1;
        assert(cs@ =~= placed_cells(g, *coord).take(k as int));
    }
    assert(placed_cells(g, *coord).take(k as int) =~= placed_cells(g, *coord));
    cs
}

impl Grid {
    /// The positions of the cells of area `id`, in ascending order.
    pub(crate) fn collect_members(&self, id: usize) -> (r: Vec<Coordinate>)
        requires
            self.layout_ok(),
        ensures
            r@ == members_of(self.cells(), id),
    {
        let mut r: Vec<Coordinate> = Vec::new();
        let mut i: usize = 0;
        while i < CELLS
            invariant
                self.layout_ok(),
                i <= CELLS,
                r@ == members_of(self.cells().take(i as int), id),
            decreases CELLS - i,
        {
            assert(self.cells().take(i + 1).drop_last() =~= self.cells().take(i as int));
            let f = self.inner[i];
            match f.cultivation {
                Some(info) => {
                    if info.area_id.0 == id {
                        r.push(f.position);
                    }
                },
                None => {},
            }
            i += 1;
        }
        assert(self.cells().take(i as int) =~= self.cells());
        r
    }

    /// Re-reads area `id` from the cells: registered with `kind` and its
    /// members when it has any, dropped from the registry otherwise.
    fn refresh_area(&mut self, id: usize, kind: Cultivation)
        requires
            old(self).layout_ok(),
        ensures
            final(self).cells() == old(self).cells(),
            final(self).next_id() == old(self).next_id(),
            final(self).areas().contains_key(id) == (members_of(old(self).cells(), id).len() > 0),
            final(self).areas().contains_key(id) ==> final(self).areas()[id].kind == kind
                && final(self).areas()[id].field_coords@ == members_of(old(self).cells(), id),
            forall|k: usize| k != id ==> (#[trigger] final(self).areas().contains_key(k)) == old(self).areas().contains_key(k),
            forall|k: usize| k != id && old(self).areas().contains_key(k) ==> #[trigger] final(self).areas()[k] == old(self).areas()[k],
    {
        let members = self.collect_members(id);
        if members.len() == 0 {
            self.area_infos.remove(&id);
        } else {
            self.area_infos.insert(id, AreaInfo { kind, field_coords: members });
        }
    }

    /// Moves the cell at `(x, y)` into area `n` when it is cultivated with
    /// `c` under a smaller identifier, queueing it and recording its old
    /// identifier; otherwise changes nothing.
    #[verifier::rlimit(30)]
    fn absorb(
        &mut self,
        x: i64,
        y: i64,
        n: usize,
        c: Cultivation,
        work: &mut Vec<usize>,
        absorbed: &mut Vec<usize>,
        Ghost(before): Ghost<Grid>,
        Ghost(placed): Ghost<Seq<Field>>,
        Ghost(g): Ghost<Seq<Coordinate>>,
        Ghost(a): Ghost<Coordinate>,
        Ghost(e): Ghost<int>,
    )
        requires
            old(self).layout_ok(),
            flood_inv(before, placed, old(self).cells(), g, a, c, n, old(work)@, old(absorbed)@, e),
            0 <= e < CELLS,
            has_id(old(self).cells()[e], n),
            in_bounds(x as int, y as int) ==> adjacent(pos_of(e), Coordinate { x: x as i32, y: y as i32 }),
        ensures
            final(self).layout_ok(),
            final(self).areas() == old(self).areas(),
            final(self).next_id() == old(self).next_id(),
            flood_inv(before, placed, final(self).cells(), g, a, c, n, final(work)@, final(absorbed)@, e),
            count_cells(final(self).cells(), outside_pred(n)) + final(work)@.len()
                == count_cells(old(self).cells(), outside_pred(n)) + old(work)@.len(),
            final(work)@.len() >= old(work)@.len(),
            forall|k: int| 0 <= k < CELLS ==> (is_cultivated(#[trigger] final(self).cells()[k]) == is_cultivated(old(self).cells()[k])
                && (is_cultivated(old(self).cells()[k]) ==> kind_of(final(self).cells()[k]) == kind_of(old(self).cells()[k]))
                && (has_id(old(self).cells()[k], n) ==> has_id(final(self).cells()[k], n))),
            in_bounds(x as int, y as int) ==> (is_cultivated(cell(old(self).cells(), x as int, y as int))
                && kind_of(cell(old(self).cells(), x as int, y as int)) == c ==> has_id(cell(final(self).cells(), x as int, y as int), n)),
    {
        if 0 <= x && x < SIZE as i64 && 0 <= y && y < SIZE as i64 {
            proof {
                lemma_idx_pos(x as int, y as int);
            }
            let i = (x as usize) * SIZE + (y as usize);
            let f = self.inner[i];
            match f.cultivation {
                Some(info) => {
                    if info.cultivation == c && info.area_id.0 < n {
                        let ghost c0 = self.cells();
                        let ghost w0 = work@;
                        let ghost b0 = absorbed@;
                        proof {
                            assert(pos_of(i as int) == Coordinate { x: x as i32, y: y as i32 });
                            lemma_absorb_step(before, placed, c0, g, a, c, n, w0, b0, e, i as int);
                        }
                        let moved = Field {
                            cultivation: Some(CultivationInformation { cultivation: c, area_id: AreaID(n) }),
                            terrain: f.terrain,
                            position: f.position,
                        };
                        self.inner.set(i, moved);
                        work.push(i);
                        absorbed.push(info.area_id.0);
                        proof {
                            assert(self.cells() == c0.update(i as int, relabeled(c0[i as int], c, n)));
                        }
                    } else {
                        proof {
                            reveal(flood_ids);
                        }
                    }
                },
                None => {},
            }
        }
    }

    /// Absorbs the neighbours of the queued cell `i` into area `n`.
    #[verifier::rlimit(40)]
    fn expand(
        &mut self,
        i: usize,
        n: usize,
        c: Cultivation,
        work: &mut Vec<usize>,
        absorbed: &mut Vec<usize>,
        Ghost(before): Ghost<Grid>,
        Ghost(placed): Ghost<Seq<Field>>,
        Ghost(g): Ghost<Seq<Coordinate>>,
        Ghost(a): Ghost<Coordinate>,
    )
        requires
            old(self).layout_ok(),
            i < CELLS,
            has_id(old(self).cells()[i as int], n),
            !old(work)@.contains(i),
            flood_inv(before, placed, old(self).cells(), g, a, c, n, old(work)@, old(absorbed)@, i as int),
        ensures
            final(self).layout_ok(),
            final(self).areas() == old(self).areas(),
            final(self).next_id() == old(self).next_id(),
            flood_inv(before, placed, final(self).cells(), g, a, c, n, final(work)@, final(absorbed)@, -1),
            count_cells(final(self).cells(), outside_pred(n)) + final(work)@.len()
                == count_cells(old(self).cells(), outside_pred(n)) + old(work)@.len(),
            final(work)@.len() >= old(work)@.len(),
    {
        let ghost c0 = self.cells();
        proof {
            lemma_pos_idx(i as int);
        }
        let x = (i / SIZE) as i64;
        let y = (i % SIZE) as i64;
        assert(x == pos_of(i as int).x && y == pos_of(i as int).y);
        let ghost e = i as int;
        self.absorb(x, y + 1, n, c, work, absorbed, Ghost(before), Ghost(placed), Ghost(g), Ghost(a), Ghost(e));
        let ghost c1 = self.cells();
        self.absorb(x, y - 1, n, c, work, absorbed, Ghost(before), Ghost(placed), Ghost(g), Ghost(a), Ghost(e));
        let ghost c2 = self.cells();
        self.absorb(x + 1, y, n, c, work, absorbed, Ghost(before), Ghost(placed), Ghost(g), Ghost(a), Ghost(e));
        let ghost c3 = self.cells();
        self.absorb(x - 1, y, n, c, work, absorbed, Ghost(before), Ghost(placed), Ghost(g), Ghost(a), Ghost(e));
        proof {
            lemma_expand_closes(c0, c1, c2, c3, self.cells(), work@, n, c, i as int, x as int, y as int);
        }
    }

    /// Cultivates the cells that `geom` covers at `coord` with `cultivation`
    /// and merges them, together with every area of that kind that they touch,
    /// into one area under a fresh identifier.
    #[verifier::rlimit(60)]
    pub fn cultivate(&mut self, geom: &Geometry, coord: &Coordinate, cultivation: Cultivation)
        requires
            old(self).wf(),
            geom.wf(),
            accepts_at(old(self).cells(), geom@, *coord, false),
        ensures
            cultivation_step(*old(self), *final(self), geom@, *coord, cultivation),
    {
        let ghost before = *self;
        let ghost old_cells = self.cells();
        proof {
            lemma_count_le(old_cells, cultivated_pred());
        }
        let n = self.area_counter;
        self.area_counter = n + 1;
        let offsets = geom.cells();
        let mut work: Vec<usize> = Vec::new();
        let mut k: usize = 0;
        while k < offsets.len()
            invariant
                offsets@ == geom@,
                geom.wf(),
                k <= offsets@.len(),
                self.layout_ok(),
                self.areas() == before.areas(),
                self.next_id() == n + 1,
                n == before.next_id(),
                before.wf(),
                old_cells == before.cells(),
                accepts_at(old_cells, geom@, *coord, false),
                count_cells(self.cells(), cultivated_pred()) == count_cells(old_cells, cultivated_pred()) + work@.len(),
                k > 0 ==> work@.len() > 0,
                placed_from(old_cells, self.cells(), geom@.take(k as int), *coord, cultivation, n),
                work@.no_duplicates(),
                forall|w: int| 0 <= w < work@.len() ==> (#[trigger] work@[w]) < CELLS && has_id(self.cells()[work@[w] as int], n),
                forall|i: int| 0 <= i < CELLS && has_id(#[trigger] self.cells()[i], n) ==> work@.contains(i as usize),
            decreases offsets@.len() - k,
        {
            let p = offsets[k];
            let ghost pre = self.cells();
            let ghost pre_work = work@;
            assert(crate::grid::free_at(old_cells, coord.x + geom@[k as int].x, coord.y + geom@[k as int].y));
            let x = (coord.x as i64 + p.x as i64) as usize;
            let y = (coord.y as i64 + p.y as i64) as usize;
            proof {
                lemma_idx_pos(x as int, y as int);
            }
            let i = x * SIZE + y;
            let f = self.inner[i];
            let already = match f.cultivation {
                Some(info) => info.area_id.0 == n,
                None => false,
            };
            proof {
                assert forall|j: int| 0 <= j < CELLS implies covers(geom@.take(k + 1), *coord, pos_of(j)) == (covers(geom@.take(k as int), *coord, pos_of(j)) || j == i) by {
                    lemma_pos_idx(j);
                    if covers(geom@.take(k + 1), *coord, pos_of(j)) {
                        let w = choose|w: int| 0 <= w < k + 1 && coord.x + geom@.take(k + 1)[w].x == pos_of(j).x && coord.y + #[trigger] geom@.take(k + 1)[w].y == pos_of(j).y;
                        if w < k {
                            assert(geom@.take(k as int)[w] == geom@.take(k + 1)[w]);
                        }
                    }
                    if covers(geom@.take(k as int), *coord, pos_of(j)) {
                        let w = choose|w: int| 0 <= w < k && coord.x + geom@.take(k as int)[w].x == pos_of(j).x && coord.y + #[trigger] geom@.take(k as int)[w].y == pos_of(j).y;
                        assert(geom@.take(k + 1)[w] == geom@.take(k as int)[w]);
                    }
                    if j == i {
                        assert(geom@.take(k + 1)[k as int] == p);
                    }
                }
                if covers(geom@.take(k as int), *coord, pos_of(i as int)) {
                    assert(has_id(pre[i as int], n));
                } else {
                    assert(pre[i as int] == old_cells[i as int]);
                    assert(pre[i as int].cultivation is None);
                }
            }
            if !already {
                let g = Field {
                    cultivation: Some(CultivationInformation { cultivation, area_id: AreaID(n) }),
                    terrain: f.terrain,
                    position: f.position,
                };
                proof {
                    lemma_count_update(pre, i as int, g, cultivated_pred());
                    assert(!pre_work.contains(i));
                }
                self.inner.set(i, g);
                work.push(i);
                proof {
                    assert forall|j: int| 0 <= j < CELLS && has_id(#[trigger] self.cells()[j], n) implies work@.contains(j as usize) by {
                        if j == i {
                            assert(work@[pre_work.len() as int] == i);
                        } else {
                            assert(pre_work.contains(j as usize));
                            let w = choose|w: int| 0 <= w < pre_work.len() && pre_work[w] == j as usize;
                            assert(work@[w] == pre_work[w]);
                        }
                    }
                    assert forall|w: int| 0 <= w < work@.len() implies (#[trigger] work@[w]) < CELLS && has_id(self.cells()[work@[w] as int], n) by {
                        if w < pre_work.len() {
                            assert(work@[w] == pre_work[w]);
                        }
                    }
                }
            }
            k += 1;
        }
        assert(geom@.take(k as int) =~= geom@);
        let ghost placed = self.cells();
        let mut absorbed: Vec<usize> = Vec::new();
        proof {
            reveal(flood_track);
            reveal(flood_ids);
            reveal(flood_absorbed);
            reveal(flood_work);
            reveal(flood_front);
            reveal(flood_rest);
            assert forall|i: int| 0 <= i < CELLS && is_cultivated(#[trigger] placed[i]) implies 1 <= id_of(placed[i]) <= n
                && (has_id(placed[i], n) ==> kind_of(placed[i]) == cultivation) by {
                if !covers(geom@, *coord, pos_of(i)) {
                    assert(placed[i] == old_cells[i]);
                }
            }
            reveal(flood_linked);
            assert forall|j: int| 0 <= j < CELLS && has_id(#[trigger] placed[j], n)
                implies linked(placed, geom@, *coord, n, j) by {
                if !covers(geom@, *coord, pos_of(j)) {
                    assert(placed[j] == old_cells[j]);
                }
                let p = seq![j];
                assert(walk(placed, geom@, *coord, n, p));
            }
            assert forall|i: int, j: int|
                0 <= i < CELLS && 0 <= j < CELLS && is_cultivated(#[trigger] placed[i]) && is_cultivated(#[trigger] placed[j])
                && !has_id(placed[i], n) && !has_id(placed[j], n)
                && kind_of(placed[i]) == kind_of(placed[j]) && adjacent(pos_of(i), pos_of(j))
                    implies id_of(placed[i]) == id_of(placed[j]) by {
                assert(!covers(geom@, *coord, pos_of(i)));
                assert(!covers(geom@, *coord, pos_of(j)));
            }
        }
        while work.len() > 0
            invariant
                self.layout_ok(),
                self.areas() == before.areas(),
                self.next_id() == n + 1,
                count_cells(placed, cultivated_pred()) >= count_cells(before.cells(), cultivated_pred()) + 1,
                flood_inv(before, placed, self.cells(), geom@, *coord, cultivation, n, work@, absorbed@, -1),
            decreases count_cells(self.cells(), outside_pred(n)), work@.len(),
        {
            let ghost w0 = work@;
            let i = work.pop().unwrap();
            proof {
                reveal(flood_work);
                reveal(flood_front);
                assert(work@ =~= w0.drop_last());
                assert(i == w0[w0.len() - 1]);
                assert(w0[w0.len() - 1] < CELLS && has_id(self.cells()[w0[w0.len() - 1] as int], n));
                assert forall|j: int| 0 <= j < work@.len() implies w0.contains(#[trigger] work@[j]) by {
                    assert(w0[j] == work@[j]);
                }
                assert(!work@.contains(i)) by {
                    if work@.contains(i) {
                        let j = choose|j: int| 0 <= j < work@.len() && work@[j] == i;
                        assert(w0[j] == w0[w0.len() - 1]);
                    }
                }
                let cells = self.cells();
                assert forall|ii: int, jj: int|
                    0 <= ii < CELLS && 0 <= jj < CELLS && ii != i && has_id(#[trigger] cells[ii], n) && !work@.contains(ii as usize)
                    && is_cultivated(#[trigger] cells[jj]) && kind_of(cells[jj]) == cultivation && adjacent(pos_of(ii), pos_of(jj))
                        implies has_id(cells[jj], n) by {
                    if w0.contains(ii as usize) {
                        let j = choose|j: int| 0 <= j < w0.len() && w0[j] == ii as usize;
                        if j < w0.len() - 1 {
                            assert(work@[j] == w0[j]);
                        }
                    }
                }
                assert(flood_front(cells, n, cultivation, work@, i as int));
            }
            self.expand(i, n, cultivation, &mut work, &mut absorbed, Ghost(before), Ghost(placed), Ghost(geom@), Ghost(*coord));
        }
        self.refresh_area(n, cultivation);
        let ghost fin = self.cells();
        let mut t: usize = 0;
        while t < absorbed.len()
            invariant
                self.layout_ok(),
                self.cells() == fin,
                self.next_id() == n + 1,
                t <= absorbed@.len(),
                forall|id: usize| (id == n || absorbed@.take(t as int).contains(id)) ==> {
                    &&& (#[trigger] self.areas().contains_key(id)) == (members_of(fin, id).len() > 0)
                    &&& self.areas().contains_key(id) ==> self.areas()[id].kind == cultivation
                        && self.areas()[id].field_coords@ == members_of(fin, id)
                },
                forall|id: usize| !(id == n || absorbed@.take(t as int).contains(id)) ==> {
                    &&& (#[trigger] self.areas().contains_key(id)) == before.areas().contains_key(id)
                    &&& self.areas().contains_key(id) ==> self.areas()[id] == before.areas()[id]
                },
            decreases absorbed@.len() - t,
        {
            let a = absorbed[t];
            self.refresh_area(a, cultivation);
            proof {
                assert forall|id: usize| absorbed@.take(t + 1).contains(id) == (absorbed@.take(t as int).contains(id) || id == a) by {
                    if absorbed@.take(t + 1).contains(id) {
                        let j = choose|j: int| 0 <= j < t + 1 && #[trigger] absorbed@.take(t + 1)[j] == id;
                        if j < t {
                            assert(absorbed@.take(t as int)[j] == id);
                        }
                    }
                    if absorbed@.take(t as int).contains(id) {
                        let j = choose|j: int| 0 <= j < t && #[trigger] absorbed@.take(t as int)[j] == id;
                        assert(absorbed@.take(t + 1)[j] == id);
                    }
                    if id == a {
                        assert(absorbed@.take(t + 1)[t as int] == id);
                    }
                }
            }
            t += 1;
        }
        assert(absorbed@.take(t as int) =~= absorbed@);
        proof {
            lemma_flood_done(before, placed, *self, geom@, *coord, cultivation, n, absorbed@);
        }
    }

    /// Validates the placement of `shape` at `coord` and, where it is
    /// accepted, cultivates it; returns the cells it now covers.
    #[verifier::rlimit(30)]
    pub fn try_cultivate(&mut self, shape: &Shape, coord: &Coordinate) -> (r: Result<Vec<Coordinate>, &'static str>)
        requires
            old(self).wf(),
            shape.wf(),
        ensures
            match r {
                Ok(cs) => {
                    &&& accepts_at(old(self).cells(), shape.geometry_view(), *coord, shape.ruin_view())
                    &&& cultivation_step(*old(self), *final(self), shape.geometry_view(), *coord, shape.cultivation_view())
                    &&& cs@ == placed_cells(shape.geometry_view(), *coord)
                },
                Err(_) => {
                    &&& !accepts_at(old(self).cells(), shape.geometry_view(), *coord, shape.ruin_view())
                    &&& *final(self) == *old(self)
                },
            },
    {
        let geom = shape.geometry();
        if self.accepts_geometry_at(geom, coord, shape.ruin().value()) {
            let cs = placed_positions(geom, coord, Ghost(self.cells()));
            self.cultivate(geom, coord, shape.cultivation());
            Ok(cs)
        } else {
            Err("Can't place the shape here")
        }
    }

    /// Collects the coins of the mountains that no free cell touches any
    /// more; returns their places. A coin is collected once.
    pub fn mountain_coins(&mut self) -> (r: Vec<Coordinate>)
        requires
            old(self).wf(),
        ensures
            coins_step(*old(self), *final(self), r@),
            r@.no_duplicates(),
    {
        let ghost orig = self.cells();
        let ghost rm = row_major(orig);
        let mut result: Vec<Coordinate> = Vec::new();
        let mut k: usize = 0;
        while k < CELLS
            invariant
                self.layout_ok(),
                k <= CELLS,
                self.areas() == old(self).areas(),
                self.next_id() == old(self).next_id(),
                orig == old(self).cells(),
                orig.len() == CELLS,
                rm == row_major(orig),
                result@ == ready_coins(rm.take(k as int), orig),
                forall|j: int| 0 <= j < CELLS ==> (#[trigger] self.cells()[j]) == if row_major_pos(j) < k && coin_ready(orig, orig[j]) {
                    Field { terrain: Terrain::Mountain(false), ..orig[j] }
                } else {
                    orig[j]
                },
            decreases CELLS - k,
        {
            assert(rm.take(k + 1).drop_last() =~= rm.take(k as int));
            proof {
                assert forall|x: int, y: int| free_at(self.cells(), x, y) == free_at(orig, x, y) by {
                    if in_bounds(x, y) {
                        lemma_idx_pos(x, y);
                    }
                }
                lemma_row_major_index(k as int);
                lemma_pos_idx(idx(k as int % 11, k as int / 11));
            }
            let x = k % SIZE;
            let y = k / SIZE;
            let i = x * SIZE + y;
            assert(i == idx(k as int % 11, k as int / 11));
            let f = self.inner[i];
            assert(f == orig[i as int]);
            assert(rm.take(k + 1).last() == f);
            if f.terrain == Terrain::Mountain(true) {
                let pos = f.position;
                let px = pos.x as i64;
                let py = pos.y as i64;
                let free_nb = self.is_free_wide(px, py + 1) || self.is_free_wide(px, py - 1)
                    || self.is_free_wide(px + 1, py) || self.is_free_wide(px - 1, py);
                if !free_nb {
                    self.inner.set(i, Field { terrain: Terrain::Mountain(false), ..f });
                    result.push(pos);
                }
            }
            k += 1;
        }
        assert(rm.take(k as int) =~= rm);
        proof {
            let cells = self.cells();
            let old_cells = old(self).cells();
            assert forall|j: int| 0 <= j < CELLS implies is_cultivated(#[trigger] cells[j]) == is_cultivated(old_cells[j])
                && has_id(cells[j], 0) == has_id(old_cells[j], 0) by {}
            assert forall|id: usize| #[trigger] self.areas().contains_key(id) implies members_of(cells, id) == members_of(old_cells, id) by {
                assert forall|j: int| 0 <= j < cells.len() implies has_id(#[trigger] cells[j], id) == has_id(old_cells[j], id) by {}
                assert forall|j: int| 0 <= j < cells.len() implies (#[trigger] cells[j]).position == old_cells[j].position by {}
                lemma_members_same(cells, old_cells, id);
            }
            lemma_count_same(cells, old_cells, cultivated_pred());
            assert forall|j: int| 0 <= j < old_cells.len() implies #[trigger] old_cells[j].cultivation == cells[j].cultivation by {}
            crate::grid::lemma_areas_connected_same(old_cells, cells);
            assert(self.wf());
            lemma_coins_distinct(*old(self), *self, result@);
        }
        result
    }

    /// The cells next to some member of area `id`, each once; empty for an
    /// unregistered identifier.
    pub fn area_neighbors(&self, id: &AreaID) -> (r: Vec<Field>)
        requires
            self.wf(),
        ensures
            r@.no_duplicates(),
            forall|f: Field| r@.contains(f) <==> area_touches(*self, id.0, f),
    {
        match self.area_infos.get(&id.0) {
            None => {
                let r: Vec<Field> = Vec::new();
                r
            },
            Some(info) => {
                let members = &info.field_coords;
                let ghost cells = self.cells();
                let mut all: Vec<Field> = Vec::new();
                let mut k: usize = 0;
                while k < members.len()
                    invariant
                        self.wf(),
                        cells == self.cells(),
                        k <= members@.len(),
                        forall|f: Field| all@.contains(f) <==> touched_by(cells, members@, k as int, f),
                    decreases members@.len() - k,
                {
                    let nb = self.neighbors(&members[k]);
                    let ghost a0 = all@;
                    all.append(&mut nb.clone());
                    proof {
                        assert forall|f: Field| all@.contains(f) <==> touched_by(cells, members@, k + 1, f) by {
                            lemma_touched_step(cells, members@, k as int, f);
                            lemma_concat_contains(a0, nb@, f);
                        }
                    }
                    k += 1;
                }
                dedup_fields(&all)
            },
        }
    }
}


pub proof fn lemma_members_contains(cells: Seq<Field>, id: usize, j: int)
    requires
        0 <= j < cells.len(),
        has_id(cells[j], id),
    ensures
        members_of(cells, id).contains(cells[j].position),
    decreases cells.len(),
{
    if j == cells.len() - 1 {
        let m = members_of(cells, id);
        assert(m[m.len() - 1] == cells[j].position);
    } else {
        lemma_members_contains(cells.drop_last(), id, j);
        let rest = members_of(cells.drop_last(), id);
        let w = choose|w: int| 0 <= w < rest.len() && rest[w] == cells[j].position;
        if has_id(cells.last(), id) {
            assert(rest.push(cells.last().position)[w] == cells[j].position);
        }
    }
}


proof fn lemma_members_source(cells: Seq<Field>, id: usize, x: Coordinate) -> (j: int)
    requires
        members_of(cells, id).contains(x),
    ensures
        0 <= j < cells.len(),
        has_id(cells[j], id),
        cells[j].position == x,
    decreases cells.len(),
{
    let rest = members_of(cells.drop_last(), id);
    if has_id(cells.last(), id) && cells.last().position == x {
        cells.len() - 1
    } else {
        if has_id(cells.last(), id) {
            let k = choose|k: int| 0 <= k < rest.push(cells.last().position).len() && rest.push(cells.last().position)[k] == x;
            assert(rest[k] == x);
        }
        lemma_members_source(cells.drop_last(), id, x)
    }
}

/// In the setting of `lemma_merge_two`, a walk through the new area stays on
/// the three cells.
proof fn lemma_walk_on_three(before: Grid, after: Grid, a: Coordinate, c: Cultivation, p: int, q: int, r: int, w: Seq<int>, k: int)
    requires
        before.wf(),
        after.wf(),
        0 <= p < CELLS && 0 <= q < CELLS && 0 <= r < CELLS,
        pos_of(r) == a,
        p != r && q != r,
        forall|j: int| 0 <= j < CELLS && covers(seq![Coordinate { x: 0, y: 0 }], a, pos_of(j)) ==> j == r,
        is_cultivated(before.cells()[p]) && kind_of(before.cells()[p]) == c,
        is_cultivated(before.cells()[q]) && kind_of(before.cells()[q]) == c,
        members_of(before.cells(), id_of(before.cells()[p])) == seq![pos_of(p)],
        members_of(before.cells(), id_of(before.cells()[q])) == seq![pos_of(q)],
        forall|j: int| 0 <= j < CELLS && adjacent(a, pos_of(j)) && is_cultivated(#[trigger] before.cells()[j])
            && kind_of(before.cells()[j]) == c ==> j == p || j == q,
        forall|j: int| 0 <= j < CELLS && !covers(seq![Coordinate { x: 0, y: 0 }], a, pos_of(j)) ==> {
            &&& is_cultivated(#[trigger] after.cells()[j]) == is_cultivated(before.cells()[j])
            &&& is_cultivated(before.cells()[j]) ==> kind_of(after.cells()[j]) == kind_of(before.cells()[j])
        },
        forall|j: int| 0 <= j < CELLS && has_id(#[trigger] after.cells()[j], before.next_id() as usize) ==> kind_of(after.cells()[j]) == c,
        walk(after.cells(), seq![Coordinate { x: 0, y: 0 }], a, before.next_id() as usize, w),
        0 <= k < w.len(),
    ensures
        w[k] == r || w[k] == p || w[k] == q,
    decreases k,
{
    let g = seq![Coordinate { x: 0, y: 0 }];
    let n = before.next_id() as usize;
    if k == 0 {
        assert(covers(g, a, pos_of(w[0])));
    } else {
        lemma_walk_on_three(before, after, a, c, p, q, r, w, k - 1);
        let prev = w[k - 1];
        let m = w[k];
        assert(adjacent(pos_of(prev), pos_of(m)));
        assert(0 <= m < CELLS && has_id(after.cells()[m], n));
        if m != r {
            assert(!covers(g, a, pos_of(m)));
            assert(is_cultivated(before.cells()[m]) && kind_of(before.cells()[m]) == c);
            if prev == r {
                assert(adjacent(a, pos_of(m)));
            } else {
                // a neighbour of a single-cell area of its kind is not of that kind
                let b = if prev == p { p } else { q };
                assert(prev == b);
                assert(adjacent(pos_of(b), pos_of(m)));
                assert(id_of(before.cells()[m]) == id_of(before.cells()[b]));
                lemma_members_contains(before.cells(), id_of(before.cells()[b]), m);
                assert(before.cells()[m].position == pos_of(m));
                assert(seq![pos_of(b)].contains(pos_of(m)));
                assert(pos_of(m) == pos_of(b));
                lemma_pos_idx(m);
                lemma_pos_idx(b);
                assert(false);
            }
        }
    }
}

/// Joining two single-cell areas of one kind with a cell of that kind between
/// them (and next to no other cell of that kind) leaves one area, under the
/// new identifier, that holds exactly those three cells; neither former
/// identifier stays registered.
#[verifier::rlimit(40)]
pub proof fn lemma_merge_two(before: Grid, after: Grid, a: Coordinate, c: Cultivation, p: int, q: int)
    requires
        before.wf(),
        0 <= p < CELLS,
        0 <= q < CELLS,
        is_cultivated(before.cells()[p]) && kind_of(before.cells()[p]) == c,
        is_cultivated(before.cells()[q]) && kind_of(before.cells()[q]) == c,
        members_of(before.cells(), id_of(before.cells()[p])) == seq![pos_of(p)],
        members_of(before.cells(), id_of(before.cells()[q])) == seq![pos_of(q)],
        in_bounds(a.x as int, a.y as int),
        adjacent(a, pos_of(p)),
        adjacent(a, pos_of(q)),
        forall|j: int| 0 <= j < CELLS && adjacent(a, pos_of(j)) && is_cultivated(#[trigger] before.cells()[j])
            && kind_of(before.cells()[j]) == c ==> j == p || j == q,
        accepts_at(before.cells(), seq![Coordinate { x: 0, y: 0 }], a, false),
        cultivation_step(before, after, seq![Coordinate { x: 0, y: 0 }], a, c),
    ensures
        after.areas().contains_key(before.next_id() as usize),
        after.areas()[before.next_id() as usize].kind == c,
        after.areas()[before.next_id() as usize].field_coords@.contains(a),
        after.areas()[before.next_id() as usize].field_coords@.contains(pos_of(p)),
        after.areas()[before.next_id() as usize].field_coords@.contains(pos_of(q)),
        !after.areas().contains_key(id_of(before.cells()[p])),
        !after.areas().contains_key(id_of(before.cells()[q])),
        forall|x: Coordinate| #[trigger] after.areas()[before.next_id() as usize].field_coords@.contains(x)
            <==> (x == a || x == pos_of(p) || x == pos_of(q)),
{
    reveal(cultivation_step);
    let g = seq![Coordinate { x: 0, y: 0 }];
    let n = before.next_id() as usize;
    let old_cells = before.cells();
    let cells = after.cells();
    lemma_idx_pos(a.x as int, a.y as int);
    let r = idx(a.x as int, a.y as int);
    assert(pos_of(r) == a);
    assert(a.x + g[0].x == pos_of(r).x && a.y + g[0].y == pos_of(r).y);
    assert(covers(g, a, pos_of(r)));
    assert(has_id(cells[r], n));
    // the old cells are not covered: only `a` is
    assert forall|j: int| 0 <= j < CELLS && covers(g, a, pos_of(j)) implies j == r by {
        lemma_pos_idx(j);
    }
    assert(p != r && q != r) by {
        assert(free_at(old_cells, a.x + g[0].x, a.y + g[0].y));
    }
    assert(adjacent(pos_of(r), pos_of(p)));
    assert(adjacent(pos_of(r), pos_of(q)));
    assert(has_id(cells[p], n));
    assert(has_id(cells[q], n));
    assert(after.areas().contains_key(n));
    lemma_members_contains(cells, n, r);
    lemma_members_contains(cells, n, p);
    lemma_members_contains(cells, n, q);
    assert(cells[r].position == a);
    let ap = id_of(old_cells[p]);
    let aq = id_of(old_cells[q]);
    assert(ap < n && aq < n);
    assert forall|b: usize| (b == ap || b == aq) implies !after.areas().contains_key(b) by {
        if after.areas().contains_key(b) {
            let j = crate::ranking::member_cell(cells, b);
            crate::ranking::lemma_member_cell_spec(cells, b);
            if covers(g, a, pos_of(j)) {
                assert(has_id(cells[j], n));
            } else {
                assert(id_of(cells[j]) == id_of(old_cells[j]));
                lemma_members_contains(old_cells, b, j);
                lemma_pos_idx(j);
                lemma_pos_idx(p);
                lemma_pos_idx(q);
                if b == ap {
                    assert(seq![pos_of(p)].contains(old_cells[j].position));
                    assert(j == p);
                } else {
                    assert(seq![pos_of(q)].contains(old_cells[j].position));
                    assert(j == q);
                }
            }
        }
    }
    // exactly the three cells
    assert forall|j: int| 0 <= j < CELLS && has_id(#[trigger] cells[j], n) implies kind_of(cells[j]) == c by {
        assert(after.areas()[n].kind == kind_of(cells[j]));
        assert(after.areas()[n].kind == kind_of(cells[r]));
    }
    assert forall|x: Coordinate| #[trigger] after.areas()[n].field_coords@.contains(x)
        implies (x == a || x == pos_of(p) || x == pos_of(q)) by {
        let j = lemma_members_source(cells, n, x);
        let w = choose|w: Seq<int>| #[trigger] walk(cells, g, a, n, w) && w.last() == j;
        lemma_walk_on_three(before, after, a, c, p, q, r, w, w.len() - 1);
        assert(cells[j].position == pos_of(j));
    }

}


/// After a cultivation every registered area has as many members as there
/// are cells that name it.
pub proof fn lemma_sizes_after_cultivate(before: Grid, after: Grid, g: Seq<Coordinate>, a: Coordinate, c: Cultivation)
    requires
        cultivation_step(before, after, g, a, c),
    ensures
        forall|id: usize| #[trigger] after.areas().contains_key(id)
            ==> after.areas()[id].field_coords@.len() == area_cell_count(after.cells(), id),
{
    reveal(cultivation_step);
    lemma_area_sizes(after);
}


/// In the setting of `lemma_merge_two` with two distinct cells, the registry
/// loses exactly one entry: both former identifiers leave, the new one
/// arrives, and every other entry stays as it was.
#[verifier::rlimit(40)]
pub proof fn lemma_merge_registry(before: Grid, after: Grid, a: Coordinate, c: Cultivation, p: int, q: int)
    requires
        before.wf(),
        0 <= p < CELLS,
        0 <= q < CELLS,
        p != q,
        is_cultivated(before.cells()[p]) && kind_of(before.cells()[p]) == c,
        is_cultivated(before.cells()[q]) && kind_of(before.cells()[q]) == c,
        members_of(before.cells(), id_of(before.cells()[p])) == seq![pos_of(p)],
        members_of(before.cells(), id_of(before.cells()[q])) == seq![pos_of(q)],
        in_bounds(a.x as int, a.y as int),
        adjacent(a, pos_of(p)),
        adjacent(a, pos_of(q)),
        forall|j: int| 0 <= j < CELLS && adjacent(a, pos_of(j)) && is_cultivated(#[trigger] before.cells()[j])
            && kind_of(before.cells()[j]) == c ==> j == p || j == q,
        accepts_at(before.cells(), seq![Coordinate { x: 0, y: 0 }], a, false),
        cultivation_step(before, after, seq![Coordinate { x: 0, y: 0 }], a, c),
    ensures
        after.areas().dom().len() + 1 == before.areas().dom().len(),
        forall|k: usize| k != id_of(before.cells()[p]) && k != id_of(before.cells()[q]) && k != before.next_id()
            ==> (#[trigger] after.areas().contains_key(k)) == before.areas().contains_key(k)
                && (before.areas().contains_key(k) ==> after.areas()[k].kind == before.areas()[k].kind
                    && after.areas()[k].field_coords@ == before.areas()[k].field_coords@),
{
    lemma_merge_two(before, after, a, c, p, q);
    reveal(cultivation_step);
    let g = seq![Coordinate { x: 0, y: 0 }];
    let n = before.next_id() as usize;
    let old_cells = before.cells();
    let cells = after.cells();
    let ap = id_of(old_cells[p]);
    let aq = id_of(old_cells[q]);
    lemma_pos_idx(p);
    lemma_pos_idx(q);
    assert(ap != aq) by {
        if ap == aq {
            assert(seq![pos_of(p)][0] == seq![pos_of(q)][0]);
        }
    }
    // the cells that changed area are exactly p and q
    assert forall|v: int| 0 <= v < CELLS && !covers(g, a, pos_of(v)) && is_cultivated(#[trigger] old_cells[v])
        && id_of(cells[v]) != id_of(old_cells[v]) implies v == p || v == q by {
        assert(has_id(cells[v], n));
        lemma_members_contains(cells, n, v);
        lemma_pos_idx(v);
        assert(after.areas()[n].field_coords@.contains(pos_of(v)));
        if pos_of(v) == a {
            lemma_idx_pos(a.x as int, a.y as int);
            assert(a.x + g[0].x == pos_of(v).x && a.y + g[0].y == pos_of(v).y);
        }
    }
    assert forall|k: usize| k != ap && k != aq && k != n implies
        (#[trigger] after.areas().contains_key(k)) == before.areas().contains_key(k)
            && (before.areas().contains_key(k) ==> after.areas()[k].kind == before.areas()[k].kind
                && after.areas()[k].field_coords@ == before.areas()[k].field_coords@) by {
        assert forall|v: int| 0 <= v < cells.len() implies has_id(#[trigger] cells[v], k) == has_id(old_cells[v], k) by {
            if has_id(cells[v], k) {
                assert(!covers(g, a, pos_of(v)));
            }
            if has_id(old_cells[v], k) {
                if covers(g, a, pos_of(v)) {
                    lemma_pos_idx(v);
                    assert(crate::grid::free_at(old_cells, a.x + g[0].x, a.y + g[0].y));
                    lemma_idx_pos(a.x as int, a.y as int);
                }
            }
        }
        assert forall|v: int| 0 <= v < cells.len() implies (#[trigger] cells[v]).position == old_cells[v].position by {}
        lemma_members_same(cells, old_cells, k);
        if before.areas().contains_key(k) {
            let v = crate::ranking::member_cell(old_cells, k);
            crate::ranking::lemma_member_cell_spec(old_cells, k);
            assert(has_id(cells[v], k));
            assert(!covers(g, a, pos_of(v)));
        }
        if after.areas().contains_key(k) {
            let v = crate::ranking::member_cell(cells, k);
            crate::ranking::lemma_member_cell_spec(cells, k);
            assert(has_id(old_cells[v], k));
        }
    }
    // the registry's keys
    assert(before.areas().contains_key(ap) && before.areas().contains_key(aq));
    assert(!before.areas().contains_key(n)) by {
        if before.areas().contains_key(n) {
            let v = crate::ranking::member_cell(old_cells, n);
            crate::ranking::lemma_member_cell_spec(old_cells, n);
        }
    }
    let d0 = before.areas().dom();
    let d1 = after.areas().dom();
    assert(d1 =~= d0.remove(ap).remove(aq).insert(n));
    assert(before.area_infos@.dom().finite());
    assert(d0.remove(ap).len() == d0.len() - 1);
    assert(d0.remove(ap).remove(aq).len() == d0.len() - 2);
    assert(!d0.remove(ap).remove(aq).contains(n));
    assert(d0.remove(ap).remove(aq).insert(n).len() == d0.len() - 1);
}


proof fn lemma_ready_no_dup(prefix: Seq<Field>, cells: Seq<Field>)
    requires
        forall|i: int, j: int| 0 <= i < j < prefix.len() ==> (#[trigger] prefix[i]).position != (#[trigger] prefix[j]).position,
    ensures
        ready_coins(prefix, cells).no_duplicates(),
    decreases prefix.len(),
{
    if prefix.len() > 0 {
        let rest = prefix.drop_last();
        assert forall|i: int, j: int| 0 <= i < j < rest.len() implies (#[trigger] rest[i]).position != (#[trigger] rest[j]).position by {
            assert(rest[i] == prefix[i] && rest[j] == prefix[j]);
        }
        lemma_ready_no_dup(rest, cells);
        if coin_ready(cells, prefix.last()) {
            let r = ready_coins(rest, cells);
            if r.contains(prefix.last().position) {
                let i = lemma_ready_source(rest, cells, prefix.last().position);
                assert(rest[i] == prefix[i]);
            }
            assert forall|i: int, j: int| 0 <= i < r.push(prefix.last().position).len() && 0 <= j < r.push(prefix.last().position).len() && i != j
                implies r.push(prefix.last().position)[i] != r.push(prefix.last().position)[j] by {
                if i < r.len() && j < r.len() {
                } else if i < r.len() {
                    assert(r.contains(r[i]));
                } else if j < r.len() {
                    assert(r.contains(r[j]));
                }
            }
        }
    }
}

/// A collection reports each place at most once.
pub proof fn lemma_coins_distinct(before: Grid, after: Grid, r: Seq<Coordinate>)
    requires
        before.wf(),
        coins_step(before, after, r),
    ensures
        r.no_duplicates(),
{
    let rm = row_major(before.cells());
    assert forall|i: int, j: int| 0 <= i < j < rm.len() implies (#[trigger] rm[i]).position != (#[trigger] rm[j]).position by {
        lemma_row_major_index(i);
        lemma_row_major_index(j);
        let si = idx(i % 11, i / 11);
        let sj = idx(j % 11, j / 11);
        lemma_pos_idx(si);
        lemma_pos_idx(sj);
        assert(rm[i] == before.cells()[si] && rm[j] == before.cells()[sj]);
        if si == sj {
            assert(row_major_pos(si) == i && row_major_pos(sj) == j);
        }
    }
    lemma_ready_no_dup(rm, before.cells());
}

/// Across a cultivation, a second collection reports no place of the first.
pub proof fn lemma_coins_once_across_cultivation(
    g0: Grid,
    g1: Grid,
    r1: Seq<Coordinate>,
    g2: Grid,
    shape: Seq<Coordinate>,
    anchor: Coordinate,
    kind: Cultivation,
    g3: Grid,
    r2: Seq<Coordinate>,
)
    requires
        g0.wf(),
        coins_step(g0, g1, r1),
        cultivation_step(g1, g2, shape, anchor, kind),
        coins_step(g2, g3, r2),
    ensures
        forall|x: Coordinate| !(r1.contains(x) && r2.contains(x)),
        r2.no_duplicates(),
{
    reveal(cultivation_step);
    lemma_coins_once(g0, g1, r1, g2, g3, r2);
    lemma_coins_distinct(g2, g3, r2);
}

} // verus!
