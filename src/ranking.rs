//! Areas of one kind ordered by size.
use vstd::prelude::*;
use itertools::Itertools;
use crate::grid::{Grid, CELLS, has_id, id_of, is_cultivated, kind_of, members_of, pos_of};
use crate::terrain::{AreaID, AreaInfo, Cultivation};

verus! {

broadcast use vstd::std_specs::hash::group_hash_axioms;

/// Lexicographic order on pairs.
pub open spec fn pair_le(p: (usize, usize), q: (usize, usize)) -> bool {
    p.0 < q.0 || (p.0 == q.0 && p.1 <= q.1)
}

/// `p` comes before `q` in a ranking: larger area first, and among areas of
/// one size the larger identifier first.
pub open spec fn ranks_before(p: (AreaID, usize), q: (AreaID, usize)) -> bool {
    p.1 > q.1 || (p.1 == q.1 && p.0.0 > q.0.0)
}

/// `r` lists every registered area of kind `c` once, with its size, in
/// ranking order.
pub open spec fn is_ranking(g: Grid, c: Cultivation, r: Seq<(AreaID, usize)>) -> bool {
    &&& forall|i: int, j: int| 0 <= i < j < r.len() ==> ranks_before(#[trigger] r[i], #[trigger] r[j])
    &&& forall|i: int| 0 <= i < r.len() ==> {
        &&& g.areas().contains_key((#[trigger] r[i]).0.0)
        &&& g.areas()[r[i].0.0].kind == c
        &&& r[i].1 == g.areas()[r[i].0.0].field_coords@.len()
    }
    &&& forall|id: usize| #[trigger] g.areas().contains_key(id) && g.areas()[id].kind == c
        ==> exists|i: int| 0 <= i < r.len() && (#[trigger] r[i]).0.0 == id
}

/// The areas of kind `c`, largest first (ties: larger identifier first).
pub open spec fn area_ranking(g: Grid, c: Cultivation) -> Seq<(AreaID, usize)> {
    choose|r: Seq<(AreaID, usize)>| is_ranking(g, c, r)
}

/// Two strictly ordered sequences with the same elements are equal.
proof fn lemma_sorted_unique(s1: Seq<(AreaID, usize)>, s2: Seq<(AreaID, usize)>)
    requires
        forall|i: int, j: int| 0 <= i < j < s1.len() ==> ranks_before(#[trigger] s1[i], #[trigger] s1[j]),
        forall|i: int, j: int| 0 <= i < j < s2.len() ==> ranks_before(#[trigger] s2[i], #[trigger] s2[j]),
        forall|x: (AreaID, usize)| s1.contains(x) <==> s2.contains(x),
    ensures
        s1 == s2,
    decreases s1.len(),
{
    if s1.len() == 0 {
        if s2.len() > 0 {
            assert(s2.contains(s2[0]));
        }
        assert(s1 =~= s2);
    } else {
        assert(s1.contains(s1[0]));
        let j = choose|j: int| 0 <= j < s2.len() && s2[j] == s1[0];
        assert(s2.contains(s2[0]));
        let i = choose|i: int| 0 <= i < s1.len() && s1[i] == s2[0];
        if j > 0 {
            assert(ranks_before(s2[0], s2[j]));
            if i > 0 {
                assert(ranks_before(s1[0], s1[i]));
            }
        }
        assert(s1[0] == s2[0]);
        let t1 = s1.subrange(1, s1.len() as int);
        let t2 = s2.subrange(1, s2.len() as int);
        assert forall|x: (AreaID, usize)| t1.contains(x) <==> t2.contains(x) by {
            if t1.contains(x) {
                let a = choose|a: int| 0 <= a < t1.len() && t1[a] == x;
                assert(s1[a + 1] == x);
                assert(s1.contains(x));
                let b = choose|b: int| 0 <= b < s2.len() && s2[b] == x;
                assert(ranks_before(s1[0], s1[a + 1]));
                if b == 0 {
                    assert(false);
                }
                assert(t2[b - 1] == x);
            }
            if t2.contains(x) {
                let a = choose|a: int| 0 <= a < t2.len() && t2[a] == x;
                assert(s2[a + 1] == x);
                assert(s2.contains(x));
                let b = choose|b: int| 0 <= b < s1.len() && s1[b] == x;
                assert(ranks_before(s2[0], s2[a + 1]));
                if b == 0 {
                    assert(false);
                }
                assert(t1[b - 1] == x);
            }
        }
        lemma_sorted_unique(t1, t2);
        assert forall|k: int| 0 <= k < s1.len() implies s1[k] == s2[k] by {
            if k > 0 {
                assert(s1[k] == t1[k - 1]);
                assert(s2[k] == t2[k - 1]);
            }
        }
        assert(s1 =~= s2);
    }
}

/// Any two rankings of the same areas agree.
pub proof fn lemma_ranking_unique(g: Grid, c: Cultivation, r1: Seq<(AreaID, usize)>, r2: Seq<(AreaID, usize)>)
    requires
        is_ranking(g, c, r1),
        is_ranking(g, c, r2),
    ensures
        r1 == r2,
{
    assert forall|x: (AreaID, usize)| r1.contains(x) <==> r2.contains(x) by {
        if r1.contains(x) {
            let i = choose|i: int| 0 <= i < r1.len() && r1[i] == x;
            assert(g.areas().contains_key(r1[i].0.0));
            let j = choose|j: int| 0 <= j < r2.len() && (#[trigger] r2[j]).0.0 == x.0.0;
            assert(r2[j] == x);
        }
        if r2.contains(x) {
            let i = choose|i: int| 0 <= i < r2.len() && r2[i] == x;
            assert(g.areas().contains_key(r2[i].0.0));
            let j = choose|j: int| 0 <= j < r1.len() && (#[trigger] r1[j]).0.0 == x.0.0;
            assert(r1[j] == x);
        }
    }
    lemma_sorted_unique(r1, r2);
}

/// Relies on itertools' `Itertools::sorted`: the same items, in ascending
/// order (pairs compare lexicographically).
#[verifier::external_body]
fn sorted_pairs(v: Vec<(usize, usize)>) -> (r: Vec<(usize, usize)>)
    ensures
        r@.to_multiset() == v@.to_multiset(),
        forall|i: int, j: int| 0 <= i < j < r@.len() ==> pair_le(#[trigger] r@[i], #[trigger] r@[j]),
{
    v.into_iter().sorted().collect()
}

impl Grid {
    /// The record of area `id`, if it is registered.
    pub fn area_info(&self, id: AreaID) -> (r: Option<&AreaInfo>)
        ensures
            match r {
                Some(info) => self.areas().contains_key(id.0) && *info == self.areas()[id.0],
                None => !self.areas().contains_key(id.0),
            },
    {
        self.area_infos.get(&id.0)
    }

    /// The areas of kind `cultivation` with their sizes, largest first; among
    /// areas of one size the one with the larger identifier comes first.
    pub fn area_ids(&self, cultivation: Cultivation) -> (r: Vec<(AreaID, usize)>)
        requires
            self.wf(),
        ensures
            is_ranking(*self, cultivation, r@),
            r@ == area_ranking(*self, cultivation),
    {
        let ghost cells = self.cells();
        // the identifiers of the areas of this kind, each once
        let mut ids: Vec<usize> = Vec::new();
        let mut i: usize = 0;
        while i < CELLS
            invariant
                self.wf(),
                cells == self.cells(),
                i <= CELLS,
                ids@.no_duplicates(),
                forall|k: int| 0 <= k < ids@.len() ==> self.areas().contains_key(#[trigger] ids@[k])
                    && self.areas()[ids@[k]].kind == cultivation,
                forall|j: int| 0 <= j < i && is_cultivated(#[trigger] cells[j]) && kind_of(cells[j]) == cultivation
                    ==> ids@.contains(id_of(cells[j])),
            decreases CELLS - i,
        {
            let f = self.inner[i];
            match f.cultivation {
                Some(info) => {
                    if info.cultivation == cultivation {
                        let mut seen = false;
                        let mut k: usize = 0;
                        while k < ids.len()
                            invariant
                                k <= ids@.len(),
                                seen == exists|q: int| 0 <= q < k && ids@[q] == info.area_id.0,
                            decreases ids@.len() - k,
                        {
                            if ids[k] == info.area_id.0 {
                                seen = true;
                            }
                            k += 1;
                        }
                        if !seen {
                            let ghost before = ids@;
                            ids.push(info.area_id.0);
                            proof {
                                assert forall|j: int| 0 <= j < i + 1 && is_cultivated(#[trigger] cells[j]) && kind_of(cells[j]) == cultivation
                                    implies ids@.contains(id_of(cells[j])) by {
                                    if j < i {
                                        let w = choose|w: int| 0 <= w < before.len() && before[w] == id_of(cells[j]);
                                        assert(ids@[w] == before[w]);
                                    } else {
                                        assert(ids@[before.len() as int] == id_of(cells[j]));
                                    }
                                }
                            }
                        }
                    }
                },
                None => {},
            }
            i += 1;
        }
        // pair each with its size
        let mut pairs: Vec<(usize, usize)> = Vec::new();
        let mut k: usize = 0;
        while k < ids.len()
            invariant
                self.wf(),
                k <= ids@.len(),
                ids@.no_duplicates(),
                forall|k: int| 0 <= k < ids@.len() ==> self.areas().contains_key(#[trigger] ids@[k])
                    && self.areas()[ids@[k]].kind == cultivation,
                pairs@.len() == k,
                forall|j: int| 0 <= j < k ==> (#[trigger] pairs@[j]).1 == ids@[j]
                    && pairs@[j].0 == self.areas()[ids@[j]].field_coords@.len(),
            decreases ids@.len() - k,
        {
            let id = ids[k];
            let size = match self.area_infos.get(&id) {
                Some(info) => info.field_coords.len(),
                None => 0,
            };
            pairs.push((size, id));
            k += 1;
        }
        proof {
            assert forall|a: int, b: int| 0 <= a < pairs@.len() && 0 <= b < pairs@.len() && a != b implies pairs@[a] != pairs@[b] by {
                assert(ids@[a] != ids@[b]);
            }
            assert(pairs@.no_duplicates());
            pairs@.lemma_multiset_has_no_duplicates();
        }
        let ghost pv = pairs@;
        let sorted = sorted_pairs(pairs);
        proof {
            broadcast use vstd::seq_lib::group_to_multiset_ensures;
            sorted@.lemma_multiset_has_no_duplicates_conv();
        }
        let mut r: Vec<(AreaID, usize)> = Vec::new();
        let mut m: usize = sorted.len();
        while m > 0
            invariant
                m <= sorted@.len(),
                sorted@.no_duplicates(),
                forall|i: int, j: int| 0 <= i < j < sorted@.len() ==> pair_le(#[trigger] sorted@[i], #[trigger] sorted@[j]),
                r@.len() == sorted@.len() - m,
                forall|j: int| 0 <= j < r@.len() ==> (#[trigger] r@[j]) == (AreaID(sorted@[sorted@.len() - 1 - j].1), sorted@[sorted@.len() - 1 - j].0),
            decreases m,
        {
            m -= 1;
            let p = sorted[m];
            r.push((AreaID(p.1), p.0));
        }
        proof {
            broadcast use vstd::seq_lib::group_to_multiset_ensures;
            let n = sorted@.len() as int;
            assert forall|i: int, j: int| 0 <= i < j < r@.len() implies ranks_before(#[trigger] r@[i], #[trigger] r@[j]) by {
                assert(pair_le(sorted@[n - 1 - j], sorted@[n - 1 - i]));
                assert(sorted@[n - 1 - j] != sorted@[n - 1 - i]);
            }
            assert forall|i: int| 0 <= i < r@.len() implies {
                &&& self.areas().contains_key((#[trigger] r@[i]).0.0)
                &&& self.areas()[r@[i].0.0].kind == cultivation
                &&& r@[i].1 == self.areas()[r@[i].0.0].field_coords@.len()
            } by {
                assert(sorted@.contains(sorted@[n - 1 - i]));
                assert(sorted@.to_multiset().count(sorted@[n - 1 - i]) > 0);
                assert(pv.contains(sorted@[n - 1 - i]));
                let w = choose|w: int| 0 <= w < pv.len() && pv[w] == sorted@[n - 1 - i];
                assert(pv[w].1 == ids@[w]);
            }
            assert forall|id: usize| #[trigger] self.areas().contains_key(id) && self.areas()[id].kind == cultivation
                implies exists|i: int| 0 <= i < r@.len() && (#[trigger] r@[i]).0.0 == id by {
                let members = members_of(cells, id);
                assert(members.len() > 0);
                let j = lemma_member_cell(cells, id);
                assert(is_cultivated(cells[j]) && kind_of(cells[j]) == cultivation);
                assert(ids@.contains(id));
                let w = choose|w: int| 0 <= w < ids@.len() && ids@[w] == id;
                assert(pv[w].1 == id);
                assert(pv.contains(pv[w]));
                assert(pv.to_multiset().count(pv[w]) > 0);
                assert(sorted@.contains(pv[w]));
                let s = choose|s: int| 0 <= s < sorted@.len() && sorted@[s] == pv[w];
                assert(r@[n - 1 - s].0.0 == id);
            }
            lemma_ranking_unique(*self, cultivation, r@, area_ranking(*self, cultivation));
        }
        r
    }
}

/// Index of some cell of area `id`, if it has one.
pub open spec fn member_cell(cells: Seq<crate::terrain::Field>, id: usize) -> int {
    choose|j: int| 0 <= j < cells.len() && has_id(cells[j], id)
}

pub proof fn lemma_member_cell_spec(cells: Seq<crate::terrain::Field>, id: usize)
    requires
        members_of(cells, id).len() > 0,
    ensures
        0 <= member_cell(cells, id) < cells.len(),
        has_id(cells[member_cell(cells, id)], id),
{
    let j = lemma_member_cell(cells, id);
}

/// A cell of area `id`, given that the area has members.
proof fn lemma_member_cell(cells: Seq<crate::terrain::Field>, id: usize) -> (j: int)
    requires
        members_of(cells, id).len() > 0,
    ensures
        0 <= j < cells.len(),
        has_id(cells[j], id),
    decreases cells.len(),
{
    if has_id(cells.last(), id) {
        cells.len() - 1
    } else {
        lemma_member_cell(cells.drop_last(), id)
    }
}

} // verus!
