//! Polyomino offsets and their quarter turns and reflection.
use vstd::prelude::*;
use crate::coordinate::{Coordinate, perp_spec, negatable};
use crate::grid::adjacent;

verus! {

/// A quarter turn clockwise about the origin: `(x, y) -> (y, -x)`.
pub open spec fn rotate_cw_spec(c: Coordinate) -> Coordinate {
    Coordinate { x: c.y, y: (-c.x) as i32 }
}

/// Reflection in the vertical axis: `(x, y) -> (-x, y)`.
pub open spec fn mirror_spec(c: Coordinate) -> Coordinate {
    Coordinate { x: (-c.x) as i32, y: c.y }
}

pub open spec fn rotate_cw_all(s: Seq<Coordinate>) -> Seq<Coordinate> {
    s.map_values(|c: Coordinate| rotate_cw_spec(c))
}

pub open spec fn rotate_ccw_all(s: Seq<Coordinate>) -> Seq<Coordinate> {
    s.map_values(|c: Coordinate| perp_spec(c))
}

pub open spec fn mirror_all(s: Seq<Coordinate>) -> Seq<Coordinate> {
    s.map_values(|c: Coordinate| mirror_spec(c))
}

/// `p` is a walk over the indices of `s` that starts at the first offset and
/// steps between offsets sharing an edge.
pub open spec fn offset_walk(s: Seq<Coordinate>, p: Seq<int>) -> bool {
    &&& p.len() > 0
    &&& p[0] == 0
    &&& forall|k: int| 0 <= k < p.len() ==> 0 <= #[trigger] p[k] < s.len()
    &&& forall|k: int| 0 <= k < p.len() - 1 ==> adjacent(s[#[trigger] p[k]], s[p[k + 1]])
}

/// Some walk over the offsets ends at index `i`.
pub open spec fn walk_reaches(s: Seq<Coordinate>, i: int) -> bool {
    exists|p: Seq<int>| #[trigger] offset_walk(s, p) && p.last() == i
}

/// The offsets form one edge-connected piece.
#[verifier::opaque]
pub open spec fn connected_offsets(s: Seq<Coordinate>) -> bool {
    forall|i: int| 0 <= i < s.len() ==> #[trigger] walk_reaches(s, i)
}

/// Offsets that a geometry may hold: non-empty, every component negatable,
/// and edge-connected.
pub open spec fn valid_offsets(s: Seq<Coordinate>) -> bool {
    &&& s.len() > 0
    &&& forall|i: int| 0 <= i < s.len() ==> negatable(#[trigger] s[i])
    &&& connected_offsets(s)
}

/// Connectivity carries over to offsets that keep every edge contact.
pub proof fn lemma_connected_image(s: Seq<Coordinate>, t: Seq<Coordinate>)
    requires
        connected_offsets(s),
        s.len() == t.len(),
        forall|a: int, b: int| 0 <= a < s.len() && 0 <= b < s.len() && adjacent(s[a], s[b]) ==> adjacent(#[trigger] t[a], #[trigger] t[b]),
    ensures
        connected_offsets(t),
{
    reveal(connected_offsets);
    assert forall|i: int| 0 <= i < t.len() implies #[trigger] walk_reaches(t, i) by {
        assert(walk_reaches(s, i));
        let p = choose|p: Seq<int>| #[trigger] offset_walk(s, p) && p.last() == i;
        assert forall|k: int| 0 <= k < p.len() - 1 implies adjacent(t[#[trigger] p[k]], t[p[k + 1]]) by {
            assert(adjacent(s[p[k]], s[p[k + 1]]));
        }
        assert(offset_walk(t, p));
    }
}

/// Every index on a walk is marked, when index 0 is marked and marks spread
/// along every edge contact from a finished index, and all marked indices are
/// finished.
proof fn lemma_walk_marked(s: Seq<Coordinate>, marked: Seq<bool>, p: Seq<int>, k: int)
    requires
        marked.len() == s.len(),
        marked[0],
        forall|i: int, j: int| 0 <= i < s.len() && 0 <= j < s.len() && #[trigger] marked[i] && adjacent(s[i], s[j]) ==> #[trigger] marked[j],
        offset_walk(s, p),
        0 <= k < p.len(),
    ensures
        marked[p[k]],
    decreases k,
{
    if k > 0 {
        lemma_walk_marked(s, marked, p, k - 1);
        assert(adjacent(s[p[k - 1]], s[p[k]]));
    }
}

pub open spec fn true_pred() -> spec_fn(bool) -> bool {
    |b: bool| b
}

proof fn lemma_count_none(d: Seq<bool>)
    requires
        forall|k: int| 0 <= k < d.len() ==> !d[k],
    ensures
        d.filter(true_pred()).len() == 0,
    decreases d.len(),
{
    reveal(Seq::filter);
    if d.len() > 0 {
        lemma_count_none(d.drop_last());
    }
}

fn touching(a: Coordinate, b: Coordinate) -> (r: bool)
    ensures
        r == adjacent(a, b),
{
    (a.x == b.x && (a.y as i64 == b.y as i64 + 1 || b.y as i64 == a.y as i64 + 1))
        || (a.y == b.y && (a.x as i64 == b.x as i64 + 1 || b.x as i64 == a.x as i64 + 1))
}

/// Whether the offsets form one edge-connected piece.
fn is_connected(cells: &Vec<Coordinate>) -> (r: bool)
    requires
        cells@.len() > 0,
    ensures
        r == connected_offsets(cells@),
{
    let ghost s = cells@;
    let n = cells.len();
    let mut reached: Vec<bool> = Vec::new();
    let mut i: usize = 0;
    while i < n
        invariant
            i <= n,
            n == s.len(),
            reached@.len() == i,
            forall|k: int| 0 <= k < i ==> reached@[k] == (k == 0),
        decreases n - i,
    {
        reached.push(i == 0);
        i += 1;
    }
    let mut done: Vec<bool> = Vec::new();
    let mut i: usize = 0;
    while i < n
        invariant
            i <= n,
            done@.len() == i,
            forall|k: int| 0 <= k < i ==> !done@[k],
        decreases n - i,
    {
        done.push(false);
        i += 1;
    }
    proof {
        reveal(connected_offsets);
        let p0 = seq![0int];
        assert(offset_walk(s, p0));
        assert(walk_reaches(s, 0));
    }
    let mut finished: usize = 0;
    proof {
        lemma_count_none(done@);
    }
    loop
        invariant
            n == s.len(),
            n > 0,
            cells@ == s,
            reached@.len() == n,
            done@.len() == n,
            reached@[0],
            finished <= n,
            finished == done@.filter(true_pred()).len(),
            forall|k: int| 0 <= k < n && done@[k] ==> reached@[k],
            forall|a: int, b: int| 0 <= a < n && 0 <= b < n && #[trigger] done@[a] && adjacent(s[a], s[b]) ==> #[trigger] reached@[b],
            forall|k: int| 0 <= k < n && #[trigger] reached@[k] ==> walk_reaches(s, k),
        ensures
            reached@.len() == n,
            done@.len() == n,
            forall|a: int, b: int| 0 <= a < n && 0 <= b < n && #[trigger] done@[a] && adjacent(s[a], s[b]) ==> #[trigger] reached@[b],
            forall|k: int| 0 <= k < n && #[trigger] reached@[k] ==> walk_reaches(s, k),
            forall|q: int| 0 <= q < n && #[trigger] reached@[q] ==> done@[q],
            reached@[0],
        decreases n - finished,
    {
        // find a reached index that is not finished
        let mut pick: usize = n;
        let mut k: usize = 0;
        while k < n
            invariant
                k <= n,
                reached@.len() == n,
                done@.len() == n,
                pick == n || (pick < n && reached@[pick as int] && !done@[pick as int]),
                pick == n ==> forall|q: int| 0 <= q < k ==> !(reached@[q] && !done@[q]),
            decreases n - k,
        {
            if pick == n && reached[k] && !done[k] {
                pick = k;
            }
            k += 1;
        }
        if pick == n {
            assert forall|q: int| 0 <= q < n && #[trigger] reached@[q] implies done@[q] by {
                assert(!(reached@[q] && !done@[q]));
            }
            break;
        }
        let ghost r0 = reached@;
        assert(walk_reaches(s, pick as int));
        let ghost pw = choose|p: Seq<int>| #[trigger] offset_walk(s, p) && p.last() == pick as int;
        let mut j: usize = 0;
        while j < n
            invariant
                j <= n,
                n == s.len(),
                pick < n,
                cells@ == s,
                reached@.len() == n,
                offset_walk(s, pw) && pw.last() == pick as int,
                r0.len() == n,
                done@.len() == n,
                forall|q: int| 0 <= q < n && r0[q] ==> reached@[q],
                forall|a: int, b: int| 0 <= a < n && 0 <= b < n && #[trigger] done@[a] && adjacent(s[a], s[b]) ==> #[trigger] r0[b],
                forall|q: int| 0 <= q < j && adjacent(s[pick as int], s[q]) ==> reached@[q],
                forall|q: int| 0 <= q < n && #[trigger] reached@[q] ==> walk_reaches(s, q),
            decreases n - j,
        {
            if !reached[j] && touching(cells[pick], cells[j]) {
                reached.set(j, true);
                proof {
                    let q = pw.push(j as int);
                    assert forall|k: int| 0 <= k < q.len() implies 0 <= #[trigger] q[k] < s.len() by {
                        if k < pw.len() {
                            assert(q[k] == pw[k]);
                        }
                    }
                    assert forall|k: int| 0 <= k < q.len() - 1 implies adjacent(s[#[trigger] q[k]], s[q[k + 1]]) by {
                        if k < pw.len() - 1 {
                            assert(q[k] == pw[k] && q[k + 1] == pw[k + 1]);
                        } else {
                            assert(q[k] == pick && q[k + 1] == j);
                        }
                    }
                    assert(offset_walk(s, q) && q.last() == j);
                    assert(walk_reaches(s, j as int));
                }
            }
            j += 1;
        }
        let ghost d0 = done@;
        done.set(pick, true);
        proof {
            assert(d0.update(pick as int, true) =~= done@);
            lemma_count_true_set(d0, pick as int);
            assert forall|a: int, b: int| 0 <= a < n && 0 <= b < n && #[trigger] done@[a] && adjacent(s[a], s[b]) implies #[trigger] reached@[b] by {
                if a != pick {
                    assert(d0[a]);
                    assert(r0[b]);
                }
            }
        }
        finished = finished + 1;
    }
    // every index is reached exactly when the offsets are connected
    let mut all = true;
    let mut k: usize = 0;
    while k < n
        invariant
            k <= n,
            reached@.len() == n,
            all == forall|q: int| 0 <= q < k ==> reached@[q],
        decreases n - k,
    {
        if !reached[k] {
            all = false;
        }
        k += 1;
    }
    proof {
        reveal(connected_offsets);
        // unfinished reached indices do not exist, so marks are closed
        assert forall|a: int, b: int| 0 <= a < n && 0 <= b < n && #[trigger] reached@[a] && adjacent(s[a], s[b]) implies #[trigger] reached@[b] by {
            assert(done@[a]);
            assert(done@[a] && adjacent(s[a], s[b]));
        }
        if all {
            assert forall|q: int| 0 <= q < n implies #[trigger] walk_reaches(s, q) by {
                assert(reached@[q]);
            }
        }
        if connected_offsets(s) {
            assert forall|q: int| 0 <= q < n implies reached@[q] by {
                assert(walk_reaches(s, q));
                let p = choose|p: Seq<int>| #[trigger] offset_walk(s, p) && p.last() == q;
                lemma_walk_marked(s, reached@, p, p.len() - 1);
            }
        }
    }
    all
}

proof fn lemma_count_true_set(d: Seq<bool>, i: int)
    requires
        0 <= i < d.len(),
        !d[i],
    ensures
        d.update(i, true).filter(true_pred()).len() == d.filter(true_pred()).len() + 1,
        d.update(i, true).filter(true_pred()).len() <= d.len(),
    decreases d.len(),
{
    reveal(Seq::filter);
    let e = d.update(i, true);
    if i == d.len() - 1 {
        assert(e.drop_last() =~= d.drop_last());
    } else {
        lemma_count_true_set(d.drop_last(), i);
        assert(e.drop_last() =~= d.drop_last().update(i, true));
    }
    e.lemma_filter_len(true_pred());
}

/// The offsets of `s` after `m` mirrorings followed by `k` clockwise quarter turns.
pub open spec fn oriented(s: Seq<Coordinate>, mirrored: bool, k: nat) -> Seq<Coordinate>
    decreases k,
{
    if k == 0 {
        if mirrored { mirror_all(s) } else { s }
    } else {
        rotate_cw_all(oriented(s, mirrored, (k - 1) as nat))
    }
}

/// Smallest `x` among the offsets.
pub open spec fn min_x(s: Seq<Coordinate>) -> int
    decreases s.len(),
{
    if s.len() <= 1 { if s.len() == 1 { s[0].x as int } else { 0 } }
    else { let m = min_x(s.drop_last()); if s.last().x < m { s.last().x as int } else { m } }
}

pub open spec fn min_y(s: Seq<Coordinate>) -> int
    decreases s.len(),
{
    if s.len() <= 1 { if s.len() == 1 { s[0].y as int } else { 0 } }
    else { let m = min_y(s.drop_last()); if s.last().y < m { s.last().y as int } else { m } }
}

pub open spec fn max_x(s: Seq<Coordinate>) -> int
    decreases s.len(),
{
    if s.len() <= 1 { if s.len() == 1 { s[0].x as int } else { 0 } }
    else { let m = max_x(s.drop_last()); if s.last().x > m { s.last().x as int } else { m } }
}

pub open spec fn max_y(s: Seq<Coordinate>) -> int
    decreases s.len(),
{
    if s.len() <= 1 { if s.len() == 1 { s[0].y as int } else { 0 } }
    else { let m = max_y(s.drop_last()); if s.last().y > m { s.last().y as int } else { m } }
}

/// The cells of a polyomino, as offsets from an anchor. Never empty.
#[derive(Debug, Clone)]
pub struct Geometry {
    inner: Vec<Coordinate>,
}

impl View for Geometry {
    type V = Seq<Coordinate>;

    closed spec fn view(&self) -> Seq<Coordinate> {
        self.inner@
    }
}

impl Geometry {
    pub open spec fn wf(&self) -> bool {
        valid_offsets(self@)
    }

    /// A geometry of the given offsets; `None` when there are none, when they
    /// do not form one edge-connected piece, or when a component is
    /// `i32::MIN` (which no turn or reflection can negate).
    pub fn new(cells: Vec<Coordinate>) -> (r: Option<Geometry>)
        ensures
            match r {
                Some(g) => g@ == cells@ && g.wf(),
                None => !valid_offsets(cells@),
            },
    {
        if cells.len() == 0 {
            return None;
        }
        let mut i: usize = 0;
        while i < cells.len()
            invariant
                i <= cells@.len(),
                forall|j: int| 0 <= j < i ==> negatable(#[trigger] cells@[j]),
            decreases cells@.len() - i,
        {
            if cells[i].x == i32::MIN || cells[i].y == i32::MIN {
                return None;
            }
            i += 1;
        }
        if !is_connected(&cells) {
            return None;
        }
        Some(Geometry { inner: cells })
    }

    /// A copy holding the same offsets.
    pub fn duplicate(&self) -> (r: Geometry)
        ensures
            r@ == self@,
    {
        let mut v: Vec<Coordinate> = Vec::new();
        let mut i: usize = 0;
        while i < self.inner.len()
            invariant
                i <= self@.len(),
                v@ == self@.take(i as int),
            decreases self@.len() - i,
        {
            v.push(self.inner[i]);
            i += 1;
            assert(v@ =~= self@.take(i as int));
        }
        assert(self@.take(i as int) =~= self@);
        Geometry { inner: v }
    }

    /// The offsets, in order.
    pub fn cells(&self) -> (r: &Vec<Coordinate>)
        ensures
            r@ == self@,
    {
        &self.inner
    }

    pub fn len(&self) -> (r: usize)
        ensures
            r == self@.len(),
    {
        self.inner.len()
    }

    /// Turns every offset a quarter clockwise about the origin.
    pub fn rotate_clockwise(&mut self)
        requires
            old(self).wf(),
        ensures
            final(self)@ == rotate_cw_all(old(self)@),
            final(self).wf(),
    {
        let ghost orig = self@;
        let mut i: usize = 0;
        while i < self.inner.len()
            invariant
                valid_offsets(orig),
                self.inner@.len() == orig.len(),
                i <= orig.len(),
                forall|j: int| 0 <= j < i ==> self.inner@[j] == rotate_cw_spec(#[trigger] orig[j]),
                forall|j: int| i <= j < orig.len() ==> self.inner@[j] == #[trigger] orig[j],
            decreases orig.len() - i,
        {
            let c = self.inner[i];
            assert(negatable(orig[i as int]));
            let r = c.perp().perp().perp();
            self.inner.set(i, r);
            i += 1;
        }
        assert(self@ =~= rotate_cw_all(orig));
        proof {
            lemma_connected_image(orig, self@);
        }
    }

    /// Turns every offset a quarter counter-clockwise about the origin.
    pub fn rotate_counter_clockwise(&mut self)
        requires
            old(self).wf(),
        ensures
            final(self)@ == rotate_ccw_all(old(self)@),
            final(self).wf(),
    {
        let ghost orig = self@;
        let mut i: usize = 0;
        while i < self.inner.len()
            invariant
                valid_offsets(orig),
                self.inner@.len() == orig.len(),
                i <= orig.len(),
                forall|j: int| 0 <= j < i ==> self.inner@[j] == perp_spec(#[trigger] orig[j]),
                forall|j: int| i <= j < orig.len() ==> self.inner@[j] == #[trigger] orig[j],
            decreases orig.len() - i,
        {
            let c = self.inner[i];
            assert(negatable(orig[i as int]));
            self.inner.set(i, c.perp());
            i += 1;
        }
        assert(self@ =~= rotate_ccw_all(orig));
        proof {
            lemma_connected_image(orig, self@);
        }
    }

    /// Negates the `x` component of every offset.
    pub fn mirror(&mut self)
        requires
            old(self).wf(),
        ensures
            final(self)@ == mirror_all(old(self)@),
            final(self).wf(),
    {
        let ghost orig = self@;
        let mut i: usize = 0;
        while i < self.inner.len()
            invariant
                valid_offsets(orig),
                self.inner@.len() == orig.len(),
                i <= orig.len(),
                forall|j: int| 0 <= j < i ==> self.inner@[j] == mirror_spec(#[trigger] orig[j]),
                forall|j: int| i <= j < orig.len() ==> self.inner@[j] == #[trigger] orig[j],
            decreases orig.len() - i,
        {
            let c = self.inner[i];
            assert(negatable(orig[i as int]));
            self.inner.set(i, Coordinate { x: -c.x, y: c.y });
            i += 1;
        }
        assert(self@ =~= mirror_all(orig));
        proof {
            lemma_connected_image(orig, self@);
        }
    }

    /// The corners of the bounding box: the smallest and the largest value of
    /// each component, taken independently per axis.
    pub fn min_max(&self) -> (r: (Coordinate, Coordinate))
        requires
            self.wf(),
        ensures
            r.0.x == min_x(self@),
            r.0.y == min_y(self@),
            r.1.x == max_x(self@),
            r.1.y == max_y(self@),
    {
        let mut lo = self.inner[0];
        let mut hi = self.inner[0];
        let mut i: usize = 1;
        while i < self.inner.len()
            invariant
                1 <= i <= self@.len(),
                lo.x == min_x(self@.take(i as int)),
                lo.y == min_y(self@.take(i as int)),
                hi.x == max_x(self@.take(i as int)),
                hi.y == max_y(self@.take(i as int)),
            decreases self@.len() - i,
        {
            let c = self.inner[i];
            assert(self@.take(i + 1).drop_last() =~= self@.take(i as int));
            if c.x < lo.x { lo.x = c.x; }
            if c.y < lo.y { lo.y = c.y; }
            if c.x > hi.x { hi.x = c.x; }
            if c.y > hi.y { hi.y = c.y; }
            i += 1;
        }
        assert(self@.take(i as int) =~= self@);
        (lo, hi)
    }
}

impl Default for Geometry {
    /// The single cell at the origin.
    fn default() -> (r: Geometry)
        ensures
            r@ == seq![Coordinate { x: 0, y: 0 }],
            r.wf(),
    {
        let g = Geometry { inner: vec![Coordinate { x: 0, y: 0 }] };
        proof {
            reveal(connected_offsets);
            assert(offset_walk(g@, seq![0int]));
            assert(walk_reaches(g@, 0));
        }
        g
    }
}

/// Four clockwise quarter turns give back every offset in place.
pub proof fn lemma_rotate_four_times(s: Seq<Coordinate>)
    requires
        valid_offsets(s),
    ensures
        rotate_cw_all(rotate_cw_all(rotate_cw_all(rotate_cw_all(s)))) == s,
{
    assert(rotate_cw_all(rotate_cw_all(rotate_cw_all(rotate_cw_all(s)))) =~= s);
}

/// Mirroring twice gives back every offset in place.
pub proof fn lemma_mirror_twice(s: Seq<Coordinate>)
    requires
        valid_offsets(s),
    ensures
        mirror_all(mirror_all(s)) == s,
{
    assert(mirror_all(mirror_all(s)) =~= s);
}

/// A turn counter-clockwise undoes a turn clockwise.
pub proof fn lemma_rotate_back(s: Seq<Coordinate>)
    requires
        valid_offsets(s),
    ensures
        rotate_ccw_all(rotate_cw_all(s)) == s,
{
    assert(rotate_ccw_all(rotate_cw_all(s)) =~= s);
}


/// Every orientation of valid, distinct offsets is valid and distinct.
pub proof fn lemma_oriented_valid(s: Seq<Coordinate>, m: bool, k: nat)
    requires
        valid_offsets(s),
        s.no_duplicates(),
    ensures
        valid_offsets(oriented(s, m, k)),
        oriented(s, m, k).no_duplicates(),
        oriented(s, m, k).len() == s.len(),
    decreases k,
{
    if k == 0 {
        if m {
            let t = mirror_all(s);
            assert forall|a: int, b: int| 0 <= a < s.len() && 0 <= b < s.len() && adjacent(s[a], s[b])
                implies adjacent(#[trigger] t[a], #[trigger] t[b]) by {
                assert(negatable(s[a]) && negatable(s[b]));
            }
            lemma_connected_image(s, t);
            assert forall|a: int, b: int| 0 <= a < t.len() && 0 <= b < t.len() && a != b implies t[a] != t[b] by {
                assert(negatable(s[a]) && negatable(s[b]));
                assert(s[a] != s[b]);
            }
            assert forall|i: int| 0 <= i < t.len() implies negatable(#[trigger] t[i]) by {
                assert(negatable(s[i]));
            }
        }
    } else {
        lemma_oriented_valid(s, m, (k - 1) as nat);
        let u = oriented(s, m, (k - 1) as nat);
        let t = rotate_cw_all(u);
        assert forall|a: int, b: int| 0 <= a < u.len() && 0 <= b < u.len() && adjacent(u[a], u[b])
            implies adjacent(#[trigger] t[a], #[trigger] t[b]) by {
            assert(negatable(u[a]) && negatable(u[b]));
        }
        lemma_connected_image(u, t);
        assert forall|a: int, b: int| 0 <= a < t.len() && 0 <= b < t.len() && a != b implies t[a] != t[b] by {
            assert(negatable(u[a]) && negatable(u[b]));
            assert(u[a] != u[b]);
        }
        assert forall|i: int| 0 <= i < t.len() implies negatable(#[trigger] t[i]) by {
            assert(negatable(u[i]));
        }
    }
}

} // verus!
