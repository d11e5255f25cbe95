//! Whole-position analysis: maximal connected groups, their liberties,
//! captured groups, and the batched replay that places each move and then
//! removes every libertyless group.
use crate::board::{valid_position, Color, Placement, Point};
use crate::engine::{
    concat_seqs, group_out_of_liberties, nb_in_bounds, nb_point, neighbor_point,
    out_of_liberties_on, remove_stones, remove_stones_vec, stone_at, vecs_view,
};
use vstd::prelude::*;

verus! {

/// Two stones of the same color on orthogonally adjacent points.
pub open spec fn adjacent_stones(a: Placement, b: Placement) -> bool {
    a.color == b.color && exists|d: int|
        0 <= d < 4 && nb_in_bounds(a.point, d) && b.point == #[trigger] nb_point(a.point, d)
}

/// Some earlier stone of the run is adjacent to the stone at index k.
pub open spec fn has_earlier_neighbor(g: Seq<Placement>, k: int) -> bool {
    exists|l: int| 0 <= l < k && adjacent_stones(#[trigger] g[l], g[k])
}

/// Every stone after the first is adjacent to an earlier stone of the
/// run, so the run is 4-connected.
pub open spec fn seq_linked(g: Seq<Placement>) -> bool {
    forall|k: int| 0 < k < g.len() ==> #[trigger] has_earlier_neighbor(g, k)
}

/// All stones of the run carry the first stone's color.
pub open spec fn one_color(g: Seq<Placement>) -> bool {
    forall|k: int| 0 <= k < g.len() ==> (#[trigger] g[k]).color == g[0].color
}

/// The run is maximal within the position: every same-color stone of the
/// position adjacent to a member is itself a member.
pub open spec fn group_closed(position: Seq<Placement>, g: Seq<Placement>) -> bool {
    forall|k: int, p: Placement|
        0 <= k < g.len() && position.contains(p) && #[trigger] adjacent_stones(g[k], p)
            ==> g.contains(p)
}

/// A decomposition of a position into its maximal 4-connected one-color
/// groups: every stone in exactly one group, each group nonempty, of one
/// color, internally connected, and closed under same-color adjacency.
pub open spec fn is_components(position: Seq<Placement>, gs: Seq<Seq<Placement>>) -> bool {
    &&& forall|gi: int| 0 <= gi < gs.len() ==> (#[trigger] gs[gi]).len() > 0
    &&& forall|p: Placement|
        (exists|gi: int| 0 <= gi < gs.len() && (#[trigger] gs[gi]).contains(p)) <==> position.contains(
            p,
        )
    &&& forall|gi: int, k: int, gj: int, l: int|
        0 <= gi < gs.len() && 0 <= k < gs[gi].len() && 0 <= gj < gs.len() && 0 <= l < gs[gj].len()
            && (gi != gj || k != l) ==> (#[trigger] gs[gi][k]) != (#[trigger] gs[gj][l])
    &&& forall|gi: int| 0 <= gi < gs.len() ==> one_color(#[trigger] gs[gi])
    &&& forall|gi: int| 0 <= gi < gs.len() ==> seq_linked(#[trigger] gs[gi])
    &&& forall|gi: int| 0 <= gi < gs.len() ==> group_closed(position, #[trigger] gs[gi])
}

/// The same clauses over groups collected so far, except that some stones
/// of the position may still be ungrouped.
pub open spec fn is_components_so_far(position: Seq<Placement>, gs: Seq<Seq<Placement>>) -> bool {
    &&& forall|gi: int| 0 <= gi < gs.len() ==> (#[trigger] gs[gi]).len() > 0
    &&& forall|p: Placement, gi: int|
        0 <= gi < gs.len() && #[trigger] gs[gi].contains(p) ==> position.contains(p)
    &&& forall|gi: int, k: int, gj: int, l: int|
        0 <= gi < gs.len() && 0 <= k < gs[gi].len() && 0 <= gj < gs.len() && 0 <= l < gs[gj].len()
            && (gi != gj || k != l) ==> (#[trigger] gs[gi][k]) != (#[trigger] gs[gj][l])
    &&& forall|gi: int| 0 <= gi < gs.len() ==> one_color(#[trigger] gs[gi])
    &&& forall|gi: int| 0 <= gi < gs.len() ==> seq_linked(#[trigger] gs[gi])
    &&& forall|gi: int| 0 <= gi < gs.len() ==> group_closed(position, #[trigger] gs[gi])
}

fn contains_pl(v: &Vec<Placement>, p: Placement) -> (b: bool)
    ensures
        b == v@.contains(p),
{
    let mut i: usize = 0;
    while i < v.len()
        invariant
            i <= v@.len(),
            forall|k: int| 0 <= k < i ==> v@[k] != p,
        decreases v@.len() - i,
    {
        if v[i] == p {
            return true;
        }
        i = i + 1;
    }
    false
}

/// The first placement of this position on a given point with a given
/// color, if any.
fn stone_colored_at(position: &[Placement], q: Point, c: Color) -> (r: Option<Placement>)
    ensures
        match r {
            Some(p) => p.point == q && p.color == c && position@.contains(p),
            None => forall|k: int|
                0 <= k < position@.len() ==> !((#[trigger] position@[k]).point == q
                    && position@[k].color == c),
        },
{
    let mut i: usize = 0;
    while i < position.len()
        invariant
            i <= position@.len(),
            forall|k: int|
                0 <= k < i ==> !((#[trigger] position@[k]).point == q && position@[k].color == c),
        decreases position@.len() - i,
    {
        if position[i].point == q && position[i].color == c {
            return Some(position[i]);
        }
        i = i + 1;
    }
    None
}

/// A run of distinct stones drawn from a position is no longer than the
/// position itself.
proof fn lemma_distinct_len(position: Seq<Placement>, taken: Seq<Placement>)
    requires
        forall|p: Placement| #[trigger] taken.contains(p) ==> position.contains(p),
        forall|k: int, l: int| 0 <= k < l < taken.len() ==> taken[k] != taken[l],
    ensures
        taken.len() <= position.len(),
{
    assert(taken.no_duplicates());
    taken.unique_seq_to_set();
    position.lemma_cardinality_of_set();
    assert(taken.to_set().subset_of(position.to_set())) by {
        assert forall|p: Placement| #[trigger] taken.to_set().contains(p) implies position.to_set().contains(
            p,
        ) by {
            assert(taken.contains(p));
            assert(position.contains(p));
        }
    }
    vstd::set_lib::lemma_len_subset(taken.to_set(), position.to_set());
}

/// Orthogonal adjacency of same-color stones is symmetric for on-board
/// stones.
proof fn lemma_adjacent_symmetric(a: Placement, b: Placement)
    requires
        adjacent_stones(a, b),
        crate::board::in_bounds(a.point),
    ensures
        adjacent_stones(b, a),
{
    let d = choose|d: int|
        0 <= d < 4 && nb_in_bounds(a.point, d) && b.point == #[trigger] nb_point(a.point, d);
    let back: int = if d == 0 {
        1
    } else if d == 1 {
        0
    } else if d == 2 {
        3
    } else {
        2
    };
    assert(nb_in_bounds(b.point, back));
    assert(a.point == nb_point(b.point, back));
}

/// A linked run stays linked when a stone adjacent to one of its members
/// is appended (or when it starts from empty).
proof fn lemma_seq_linked_push(g: Seq<Placement>, x: Placement)
    requires
        seq_linked(g),
        g.len() == 0 || exists|l: int| 0 <= l < g.len() && adjacent_stones(#[trigger] g[l], x),
    ensures
        seq_linked(g.push(x)),
{
    let g2 = g.push(x);
    assert forall|k: int| 0 < k < g2.len() implies #[trigger] has_earlier_neighbor(g2, k) by {
        if k < g.len() {
            assert(g2[k] == g[k]);
            assert(has_earlier_neighbor(g, k));
            let l1 = choose|l1: int| 0 <= l1 < k && adjacent_stones(#[trigger] g[l1], g[k]);
            assert(adjacent_stones(g2[l1], g2[k]));
        } else {
            let l1 = choose|l1: int| 0 <= l1 < g.len() && adjacent_stones(#[trigger] g[l1], x);
            assert(adjacent_stones(g2[l1], g2[k]));
        }
    }
}

/// A same-color neighbor already seen sits in the gathering itself: were
/// it in a finished group, that group's adjacency closure would hold the
/// stone at hand too, against their disjointness.
proof fn lemma_visited_neighbor(
    position: Seq<Placement>,
    gs: Seq<Seq<Placement>>,
    current: Seq<Placement>,
    to_visit: Seq<Placement>,
    cur: Placement,
    nbp: Placement,
)
    requires
        valid_position(position),
        forall|gi: int| 0 <= gi < gs.len() ==> group_closed(position, #[trigger] gs[gi]),
        position.contains(cur),
        position.contains(nbp),
        adjacent_stones(cur, nbp),
        current.len() > 0,
        cur == current.last(),
        forall|p: Placement, gi: int|
            0 <= gi < gs.len() && #[trigger] gs[gi].contains(p) ==> !current.contains(p)
                && !to_visit.contains(p),
        (exists|gi: int| 0 <= gi < gs.len() && (#[trigger] gs[gi]).contains(nbp))
            || current.contains(nbp) || to_visit.contains(nbp),
    ensures
        current.contains(nbp) || to_visit.contains(nbp),
{
    if !current.contains(nbp) && !to_visit.contains(nbp) {
        let gi = choose|gi: int| 0 <= gi < gs.len() && (#[trigger] gs[gi]).contains(nbp);
        let k = choose|k: int| 0 <= k < gs[gi].len() && gs[gi][k] == nbp;
        assert(crate::board::in_bounds(cur.point)) by {
            let w = choose|w: int| 0 <= w < position.len() && position[w] == cur;
            assert(crate::board::valid_placement(position[w]));
        }
        assert(adjacent_stones(gs[gi][k], cur)) by {
            lemma_adjacent_symmetric(cur, nbp);
        }
        assert(group_closed(position, gs[gi]));
        assert(gs[gi].contains(cur));
        assert(current.contains(cur));
    }
}

/// Extending a partial decomposition by one nonempty, one-color, linked,
/// closed group of on-board stones disjoint from it keeps every clause.
proof fn lemma_components_extend(
    position: Seq<Placement>,
    gs: Seq<Seq<Placement>>,
    g: Seq<Placement>,
)
    requires
        is_components_so_far(position, gs),
        g.len() > 0,
        forall|k: int| 0 <= k < g.len() ==> position.contains(#[trigger] g[k]),
        forall|k: int, l: int| 0 <= k < l < g.len() ==> g[k] != g[l],
        one_color(g),
        seq_linked(g),
        group_closed(position, g),
        forall|p: Placement, gi: int|
            0 <= gi < gs.len() && #[trigger] gs[gi].contains(p) ==> !g.contains(p),
    ensures
        is_components_so_far(position, gs.push(g)),
{
    let gs2 = gs.push(g);
    assert(gs2[gs.len() as int] == g);
    assert(forall|gi: int| 0 <= gi < gs.len() ==> #[trigger] gs2[gi] == gs[gi]);
    assert forall|p: Placement, gi: int|
        0 <= gi < gs2.len() && #[trigger] gs2[gi].contains(p) implies position.contains(p) by {
        if gi < gs.len() {
            assert(gs[gi].contains(p));
        } else {
            let w = choose|w: int| 0 <= w < g.len() && g[w] == p;
        }
    }
    assert forall|gi: int, k: int, gj: int, l: int|
        0 <= gi < gs2.len() && 0 <= k < gs2[gi].len() && 0 <= gj < gs2.len() && 0 <= l
            < gs2[gj].len() && (gi != gj || k != l) implies (#[trigger] gs2[gi][k]) != (
    #[trigger] gs2[gj][l]) by {
        if gi == gs.len() && gj < gs.len() {
            assert(gs[gj].contains(gs[gj][l]));
            if gs2[gi][k] == gs2[gj][l] {
                assert(g.contains(g[k]));
            }
        } else if gj == gs.len() && gi < gs.len() {
            assert(gs[gi].contains(gs[gi][k]));
            if gs2[gi][k] == gs2[gj][l] {
                assert(g.contains(g[l]));
            }
        }
    }
    assert forall|gi: int| 0 <= gi < gs2.len() implies one_color(#[trigger] gs2[gi]) && seq_linked(
        gs2[gi],
    ) && group_closed(position, gs2[gi]) && gs2[gi].len() > 0 by {
        if gi < gs.len() {
            assert(gs2[gi] == gs[gi]);
            assert(one_color(gs[gi]) && seq_linked(gs[gi]) && group_closed(position, gs[gi]));
        } else {
            assert(gs2[gi] == g);
        }
    }
}

/// Splits a position into its maximal 4-connected one-color groups, in
/// order of each group's first stone; stones within a group come in
/// discovery order.
#[verifier::rlimit(100)]
pub fn get_connected_groups(position: &[Placement]) -> (r: Vec<Vec<Placement>>)
    requires
        crate::board::valid_position(position@),
    ensures
        is_components(position@, vecs_view(r@)),
{
    let mut groups: Vec<Vec<Placement>> = Vec::new();
    let mut visited: Vec<Placement> = Vec::new();
    let mut idx: usize = 0;
    while idx < position.len()
        invariant
            crate::board::valid_position(position@),
            idx <= position@.len(),
            forall|p: Placement| #[trigger] visited@.contains(p) ==> position@.contains(p),
            forall|k: int, l: int| 0 <= k < l < visited@.len() ==> visited@[k] != visited@[l],
            forall|k: int| 0 <= k < idx ==> visited@.contains(#[trigger] position@[k]),
            forall|p: Placement| #[trigger]
                visited@.contains(p) <==> exists|gi: int|
                    0 <= gi < vecs_view(groups@).len() && (#[trigger] vecs_view(groups@)[gi]).contains(
                        p,
                    ),
            is_components_so_far(position@, vecs_view(groups@)),
        decreases position@.len() - idx,
    {
        let seed = position[idx];
        if !contains_pl(&visited, seed) {
            let mut current: Vec<Placement> = Vec::new();
            let mut to_visit: Vec<Placement> = Vec::new();
            to_visit.push(seed);
            let ghost vis0 = visited@;
            visited.push(seed);
            proof {
                broadcast use vstd::seq_lib::lemma_seq_contains_after_push;

                lemma_distinct_len(position@, visited@);
                assert(to_visit@ =~= Seq::<Placement>::empty().push(seed));
                assert(to_visit@.contains(seed));
                assert forall|p: Placement| #[trigger] visited@.contains(p) implies (exists|
                    gi: int,
                |
                    0 <= gi < vecs_view(groups@).len() && (#[trigger] vecs_view(
                        groups@,
                    )[gi]).contains(p)) || current@.contains(p) || to_visit@.contains(p) by {
                    if p != seed {
                        assert(vis0.contains(p));
                    }
                }
                assert forall|p: Placement|
                    (exists|gi: int|
                        0 <= gi < vecs_view(groups@).len() && (#[trigger] vecs_view(
                            groups@,
                        )[gi]).contains(p)) || current@.contains(p) || to_visit@.contains(
                    p,
                ) implies #[trigger] visited@.contains(p) by {
                    if to_visit@.contains(p) {
                        assert(p == seed);
                    } else {
                        assert(vis0.contains(p));
                    }
                }
            }
            while to_visit.len() > 0
                invariant
                    crate::board::valid_position(position@),
                    idx < position@.len(),
                    forall|k: int| 0 <= k < idx ==> visited@.contains(#[trigger] position@[k]),
                    position@.contains(seed),
                    current@.len() + to_visit@.len() > 0,
                    forall|p: Placement| #[trigger]
                        visited@.contains(p) ==> position@.contains(p),
                    forall|k: int, l: int| 0 <= k < l < visited@.len() ==> visited@[k]
                        != visited@[l],
                    visited@.len() <= position@.len(),
                    forall|p: Placement| #[trigger]
                        visited@.contains(p) <==> (exists|gi: int|
                            0 <= gi < vecs_view(groups@).len() && (#[trigger] vecs_view(
                                groups@,
                            )[gi]).contains(p)) || current@.contains(p) || to_visit@.contains(p),
                    forall|p: Placement|
                        !(#[trigger] current@.contains(p) && to_visit@.contains(p)),
                    forall|p: Placement, gi: int|
                        0 <= gi < vecs_view(groups@).len() && #[trigger] vecs_view(
                            groups@,
                        )[gi].contains(p) ==> !current@.contains(p) && !to_visit@.contains(p),
                    forall|k: int, l: int| 0 <= k < l < current@.len() ==> current@[k]
                        != current@[l],
                    forall|k: int, l: int| 0 <= k < l < to_visit@.len() ==> to_visit@[k]
                        != to_visit@[l],
                    forall|k: int| 0 <= k < current@.len() ==> (#[trigger] current@[k]).color
                        == seed.color,
                    forall|k: int| 0 <= k < to_visit@.len() ==> (#[trigger] to_visit@[k]).color
                        == seed.color,
                    current@.len() == 0 ==> (forall|k: int|
                        0 <= k < to_visit@.len() ==> to_visit@[k] == seed),
                    current@.len() > 0 ==> current@[0] == seed,
                    current@.len() > 0 ==> (forall|k: int|
                        0 <= k < to_visit@.len() ==> exists|l: int|
                            0 <= l < current@.len() && adjacent_stones(
                                current@[l],
                                #[trigger] to_visit@[k],
                            )),
                    seq_linked(current@),
                    forall|k: int, p: Placement|
                        0 <= k < current@.len() && position@.contains(p) && #[trigger] adjacent_stones(
                            current@[k],
                            p,
                        ) ==> current@.contains(p) || to_visit@.contains(p),
                    is_components_so_far(position@, vecs_view(groups@)),
                decreases 5 * (position@.len() - visited@.len()) + to_visit@.len(),
            {
                let ghost tv_prev = to_visit@;
                let cur = to_visit.pop().unwrap();
                let ghost cur_prev = current@;
                current.push(cur);
                proof {
                    broadcast use vstd::seq_lib::lemma_seq_contains_after_push;

                    assert(tv_prev.drop_last() =~= to_visit@);
                    assert(tv_prev.contains(cur)) by {
                        assert(tv_prev.last() == cur);
                    }
                    assert(!cur_prev.contains(cur));
                    assert forall|p: Placement| #[trigger] tv_prev.contains(p) implies to_visit@.contains(
                        p,
                    ) || p == cur by {
                        let w = choose|w: int| 0 <= w < tv_prev.len() && tv_prev[w] == p;
                        if w < tv_prev.len() - 1 {
                            assert(to_visit@[w] == p);
                        }
                    }
                    assert forall|p: Placement| #[trigger] to_visit@.contains(p) implies tv_prev.contains(
                        p,
                    ) by {
                        let w = choose|w: int| 0 <= w < to_visit@.len() && to_visit@[w] == p;
                        assert(tv_prev[w] == p);
                    }
                    assert(!to_visit@.contains(cur)) by {
                        if to_visit@.contains(cur) {
                            let w = choose|w: int| 0 <= w < to_visit@.len() && to_visit@[w] == cur;
                            assert(tv_prev[w] == cur && tv_prev[tv_prev.len() - 1] == cur);
                        }
                    }
                    assert(current@ == cur_prev.push(cur));
                    assert forall|p: Placement| #[trigger]
                        visited@.contains(p) <==> (exists|gi: int|
                            0 <= gi < vecs_view(groups@).len() && (#[trigger] vecs_view(
                                groups@,
                            )[gi]).contains(p)) || current@.contains(p) || to_visit@.contains(
                        p,
                    ) by {
                        if p == cur {
                            assert(current@.contains(cur));
                            assert(visited@.contains(cur)) by {
                                assert(tv_prev.contains(cur));
                            }
                        }
                    }
                    if cur_prev.len() > 0 {
                        assert forall|k: int| 0 <= k < to_visit@.len() implies exists|l: int|
                            0 <= l < current@.len() && adjacent_stones(
                                current@[l],
                                #[trigger] to_visit@[k],
                            ) by {
                            assert(tv_prev[k] == to_visit@[k]);
                            assert(exists|l: int|
                                0 <= l < cur_prev.len() && adjacent_stones(
                                    cur_prev[l],
                                    #[trigger] tv_prev[k],
                                ));
                            let l0 = choose|l0: int|
                                0 <= l0 < cur_prev.len() && adjacent_stones(
                                    cur_prev[l0],
                                    to_visit@[k],
                                );
                            assert(current@[l0] == cur_prev[l0]);
                        }
                        assert(exists|l: int|
                            0 <= l < cur_prev.len() && adjacent_stones(
                                cur_prev[l],
                                #[trigger] tv_prev[tv_prev.len() - 1],
                            ));
                        lemma_seq_linked_push(cur_prev, cur);
                    } else {
                        assert(cur == seed);
                        assert(to_visit@.len() == 0) by {
                            if to_visit@.len() > 0 {
                                assert(to_visit@[0] == seed);
                                assert(tv_prev[0] == seed && tv_prev[tv_prev.len() - 1] == seed);
                            }
                        }
                        lemma_seq_linked_push(cur_prev, cur);
                    }
                    // Adjacency closure carries over for the earlier
                    // stones: the popped stone stays reachable in the
                    // gathering.
                    assert forall|k: int, p: Placement|
                        0 <= k < current@.len() - 1 && position@.contains(p)
                            && #[trigger] adjacent_stones(current@[k], p) implies current@.contains(
                        p,
                    ) || to_visit@.contains(p) by {
                        assert(current@[k] == cur_prev[k]);
                        assert(cur_prev.contains(p) || tv_prev.contains(p));
                        if tv_prev.contains(p) && !to_visit@.contains(p) {
                            assert(p == cur);
                            assert(current@.contains(cur));
                        }
                        if cur_prev.contains(p) {
                            let w = choose|w: int| 0 <= w < cur_prev.len() && cur_prev[w] == p;
                            assert(current@[w] == p);
                        }
                    }
                }
                let ghost vis_mid = visited@;
                let mut d: usize = 0;
                while d < 4
                    invariant
                        visited@.len() - vis_mid.len() == to_visit@.len() - (tv_prev.len() - 1),
                        visited@.len() >= vis_mid.len(),
                        crate::board::valid_position(position@),
                        idx < position@.len(),
                        forall|k: int| 0 <= k < idx ==> visited@.contains(#[trigger] position@[k]),
                        d <= 4,
                        position@.contains(seed),
                        current@.len() > 0,
                        cur == current@.last(),
                        cur.color == seed.color,
                        forall|p: Placement| #[trigger]
                            visited@.contains(p) ==> position@.contains(p),
                        forall|k: int, l: int| 0 <= k < l < visited@.len() ==> visited@[k]
                            != visited@[l],
                        visited@.len() <= position@.len(),
                        forall|p: Placement| #[trigger]
                            visited@.contains(p) <==> (exists|gi: int|
                                0 <= gi < vecs_view(groups@).len() && (#[trigger] vecs_view(
                                    groups@,
                                )[gi]).contains(p)) || current@.contains(p) || to_visit@.contains(
                                p,
                            ),
                        forall|p: Placement|
                            !(#[trigger] current@.contains(p) && to_visit@.contains(p)),
                        forall|p: Placement, gi: int|
                            0 <= gi < vecs_view(groups@).len() && #[trigger] vecs_view(
                                groups@,
                            )[gi].contains(p) ==> !current@.contains(p) && !to_visit@.contains(
                                p,
                            ),
                        forall|k: int, l: int| 0 <= k < l < current@.len() ==> current@[k]
                            != current@[l],
                        forall|k: int, l: int| 0 <= k < l < to_visit@.len() ==> to_visit@[k]
                            != to_visit@[l],
                        forall|k: int| 0 <= k < current@.len() ==> (#[trigger] current@[k]).color
                            == seed.color,
                        forall|k: int| 0 <= k < to_visit@.len() ==> (
                        #[trigger] to_visit@[k]).color == seed.color,
                        current@[0] == seed,
                        forall|k: int|
                            0 <= k < to_visit@.len() ==> exists|l: int|
                                0 <= l < current@.len() && adjacent_stones(
                                    current@[l],
                                    #[trigger] to_visit@[k],
                                ),
                        seq_linked(current@),
                        forall|k: int, p: Placement|
                            0 <= k < current@.len() - 1 && position@.contains(p)
                                && #[trigger] adjacent_stones(current@[k], p) ==> current@.contains(
                                p,
                            ) || to_visit@.contains(p),
                        forall|e: int, p: Placement|
                            #![trigger nb_point(cur.point, e), position@.contains(p)]
                            0 <= e < d && position@.contains(p) && p.color == cur.color
                                && nb_in_bounds(cur.point, e) && p.point == nb_point(
                                cur.point,
                                e,
                            ) ==> current@.contains(p) || to_visit@.contains(p),
                        is_components_so_far(position@, vecs_view(groups@)),
                    decreases 4 - d,
                {
                    match neighbor_point(cur.point, d) {
                        Some(q) => {
                            match stone_colored_at(position, q, cur.color) {
                                Some(nbp) => {
                                    if !contains_pl(&visited, nbp) {
                                        to_visit.push(nbp);
                                        visited.push(nbp);
                                        proof {
                                            broadcast use vstd::seq_lib::lemma_seq_contains_after_push;

                                            assert(adjacent_stones(cur, nbp));
                                            lemma_distinct_len(position@, visited@);
                                        }
                                    } else {
                                        proof {
                                            assert(current@.contains(cur)) by {
                                                assert(current@.last() == cur);
                                            }
                                            assert(visited@.contains(cur));
                                            assert(position@.contains(cur));
                                            assert(visited@.contains(nbp));
                                            assert(adjacent_stones(cur, nbp));
                                            lemma_visited_neighbor(
                                                position@,
                                                vecs_view(groups@),
                                                current@,
                                                to_visit@,
                                                cur,
                                                nbp,
                                            );
                                        }
                                    }
                                },
                                None => {},
                            }
                        },
                        None => {},
                    }
                    d = d + 1;
                }
                proof {
                    // Every same-color neighbor of the stone at hand has
                    // now been seen, so the whole gathering is closed up
                    // to its pending stones.
                    assert forall|k: int, p: Placement|
                        0 <= k < current@.len() && position@.contains(p) && #[trigger] adjacent_stones(
                            current@[k],
                            p,
                        ) implies current@.contains(p) || to_visit@.contains(p) by {
                        if k == current@.len() - 1 {
                            let dd = choose|dd: int|
                                0 <= dd < 4 && nb_in_bounds(current@[k].point, dd) && p.point
                                    == #[trigger] nb_point(current@[k].point, dd);
                            assert(p.color == cur.color);
                        }
                    }
                }
            }
            let ghost gs_prev = vecs_view(groups@);
            let ghost cur_view = current@;
            proof {
                assert(cur_view.len() > 0);
                assert(cur_view[0] == seed);
                assert(visited@.contains(seed)) by {
                    assert(cur_view.contains(cur_view[0]));
                }
                assert(one_color(cur_view));
                assert(group_closed(position@, cur_view)) by {
                    assert forall|k: int, p: Placement|
                        0 <= k < cur_view.len() && position@.contains(p)
                            && #[trigger] adjacent_stones(cur_view[k], p) implies cur_view.contains(
                        p,
                    ) by {}
                }
            }
            groups.push(current);
            proof {
                broadcast use vstd::seq_lib::lemma_seq_contains_after_push;

                assert(vecs_view(groups@) =~= gs_prev.push(cur_view));
                assert forall|k: int| 0 <= k < cur_view.len() implies position@.contains(
                    #[trigger] cur_view[k],
                ) by {
                    assert(cur_view.contains(cur_view[k]));
                    assert(visited@.contains(cur_view[k]));
                }
                lemma_components_extend(position@, gs_prev, cur_view);
                assert forall|p: Placement| #[trigger] visited@.contains(p) implies exists|
                    gi: int,
                |
                    0 <= gi < vecs_view(groups@).len() && (#[trigger] vecs_view(
                        groups@,
                    )[gi]).contains(p) by {
                    if cur_view.contains(p) {
                        assert(vecs_view(groups@)[gs_prev.len() as int].contains(p));
                    } else {
                        let gi = choose|gi: int|
                            0 <= gi < gs_prev.len() && (#[trigger] gs_prev[gi]).contains(p);
                        assert(vecs_view(groups@)[gi].contains(p));
                    }
                }
                assert forall|p: Placement|
                    (exists|gi: int|
                        0 <= gi < vecs_view(groups@).len() && (#[trigger] vecs_view(
                            groups@,
                        )[gi]).contains(p)) implies #[trigger] visited@.contains(p) by {
                    let gi = choose|gi: int|
                        0 <= gi < vecs_view(groups@).len() && (#[trigger] vecs_view(
                            groups@,
                        )[gi]).contains(p);
                    if gi < gs_prev.len() {
                        assert(gs_prev[gi].contains(p));
                    } else {
                        assert(cur_view.contains(p));
                    }
                }
            }
        }
        idx = idx + 1;
    }
    proof {
        assert forall|p: Placement| #[trigger] position@.contains(p) implies exists|gi: int|
            0 <= gi < vecs_view(groups@).len() && (#[trigger] vecs_view(groups@)[gi]).contains(
            p,
        ) by {
            let w = choose|w: int| 0 <= w < position@.len() && position@[w] == p;
            assert(visited@.contains(position@[w]));
        }
        assert forall|p: Placement|
            (exists|gi: int|
                0 <= gi < vecs_view(groups@).len() && (#[trigger] vecs_view(groups@)[gi]).contains(
                    p,
                )) implies position@.contains(p) by {
            let gi = choose|gi: int|
                0 <= gi < vecs_view(groups@).len() && (#[trigger] vecs_view(groups@)[gi]).contains(
                    p,
                );
        }
        assert(is_components(position@, vecs_view(groups@)));
    }
    groups
}


/// A liberty of a group: an in-bounds empty point orthogonally adjacent to
/// one of its stones.
pub open spec fn is_liberty(q: Point, group: Seq<Placement>, position: Seq<Placement>) -> bool {
    exists|i: int, d: int|
        0 <= i < group.len() && 0 <= d < 4 && nb_in_bounds(group[i].point, d) && q
            == #[trigger] nb_point(group[i].point, d) && !crate::engine::has_stone_at(position, q)
}

fn contains_pt(v: &Vec<Point>, p: Point) -> (b: bool)
    ensures
        b == v@.contains(p),
{
    let mut i: usize = 0;
    while i < v.len()
        invariant
            i <= v@.len(),
            forall|k: int| 0 <= k < i ==> v@[k] != p,
        decreases v@.len() - i,
    {
        if v[i] == p {
            return true;
        }
        i = i + 1;
    }
    false
}

/// The distinct liberties of a group on a position; a group with none is
/// exactly one that is out of liberties.
pub fn get_group_liberties(group: &[Placement], position: &[Placement]) -> (r: Vec<Point>)
    ensures
        forall|q: Point| r@.contains(q) <==> is_liberty(q, group@, position@),
        forall|i: int, j: int| 0 <= i < j < r@.len() ==> r@[i] != r@[j],
        (r@.len() == 0 <==> group_out_of_liberties(group@, position@)),
{
    let mut r: Vec<Point> = Vec::new();
    let mut i: usize = 0;
    while i < group.len()
        invariant
            i <= group@.len(),
            forall|q: Point| r@.contains(q) ==> is_liberty(q, group@, position@),
            forall|i2: int, j2: int| 0 <= i2 < j2 < r@.len() ==> r@[i2] != r@[j2],
            forall|i2: int, d: int|
                0 <= i2 < i && 0 <= d < 4 && nb_in_bounds(group@[i2].point, d)
                    && !crate::engine::has_stone_at(
                    position@,
                    #[trigger] nb_point(group@[i2].point, d),
                ) ==> r@.contains(nb_point(group@[i2].point, d)),
        decreases group@.len() - i,
    {
        let p = group[i];
        let mut d: usize = 0;
        while d < 4
            invariant
                i < group@.len(),
                p == group@[i as int],
                d <= 4,
                forall|q: Point| r@.contains(q) ==> is_liberty(q, group@, position@),
                forall|i2: int, j2: int| 0 <= i2 < j2 < r@.len() ==> r@[i2] != r@[j2],
                forall|i2: int, e: int|
                    0 <= i2 < i && 0 <= e < 4 && nb_in_bounds(group@[i2].point, e)
                        && !crate::engine::has_stone_at(
                        position@,
                        #[trigger] nb_point(group@[i2].point, e),
                    ) ==> r@.contains(nb_point(group@[i2].point, e)),
                forall|e: int|
                    0 <= e < d && nb_in_bounds(p.point, e) && !crate::engine::has_stone_at(
                        position@,
                        #[trigger] nb_point(p.point, e),
                    ) ==> r@.contains(nb_point(p.point, e)),
            decreases 4 - d,
        {
            match neighbor_point(p.point, d) {
                Some(q) => {
                    match stone_at(position, q) {
                        Some(_) => {},
                        None => {
                            if !contains_pt(&r, q) {
                                let ghost prev = r@;
                                r.push(q);
                                proof {
                                    broadcast use vstd::seq_lib::lemma_seq_contains_after_push;

                                    assert(is_liberty(q, group@, position@));
                                }
                            }
                        },
                    }
                },
                None => {},
            }
            d = d + 1;
        }
        i = i + 1;
    }
    proof {
        if r@.len() == 0 {
            assert forall|i2: int, d: int|
                0 <= i2 < group@.len() && 0 <= d < 4 && nb_in_bounds(
                    group@[i2].point,
                    d,
                ) implies crate::engine::has_stone_at(
                position@,
                #[trigger] nb_point(group@[i2].point, d),
            ) by {
                if !crate::engine::has_stone_at(position@, nb_point(group@[i2].point, d)) {
                    assert(r@.contains(nb_point(group@[i2].point, d)));
                }
            }
        }
        if group_out_of_liberties(group@, position@) && r@.len() > 0 {
            assert(r@.contains(r@[0]));
            assert(is_liberty(r@[0], group@, position@));
            let (i2, d) = choose|i2: int, d: int|
                0 <= i2 < group@.len() && 0 <= d < 4 && nb_in_bounds(group@[i2].point, d) && r@[0]
                    == #[trigger] nb_point(group@[i2].point, d) && !crate::engine::has_stone_at(
                    position@,
                    r@[0],
                );
        }
    }
    r
}

/// The groups of a decomposition that have no liberty, in order.
pub open spec fn libless_filter(gs: Seq<Seq<Placement>>, position: Seq<Placement>) -> Seq<
    Seq<Placement>,
>
    decreases gs.len(),
{
    if gs.len() == 0 {
        Seq::empty()
    } else {
        let rest = libless_filter(gs.drop_last(), position);
        if group_out_of_liberties(gs.last(), position) {
            rest.push(gs.last())
        } else {
            rest
        }
    }
}

/// The maximal connected groups of the position that have no liberty left.
pub fn get_captured_groups(position: &[Placement]) -> (r: Vec<Vec<Placement>>)
    requires
        crate::board::valid_position(position@),
    ensures
        exists|gs: Seq<Seq<Placement>>|
            is_components(position@, gs) && vecs_view(r@) == libless_filter(gs, position@),
{
    let groups = get_connected_groups(position);
    let ghost gs = vecs_view(groups@);
    let mut r: Vec<Vec<Placement>> = Vec::new();
    let mut i: usize = 0;
    while i < groups.len()
        invariant
            i <= groups@.len(),
            gs == vecs_view(groups@),
            vecs_view(r@) == libless_filter(gs.subrange(0, i as int), position@),
        decreases groups@.len() - i,
    {
        proof {
            assert(gs.subrange(0, i + 1).drop_last() =~= gs.subrange(0, i as int));
            assert(gs.subrange(0, i + 1).last() == gs[i as int]);
        }
        if out_of_liberties_on(groups[i].as_slice(), position) {
            let ghost prev = vecs_view(r@);
            let g = crate::engine::copy_group(&groups[i]);
            r.push(g);
            proof {
                assert(vecs_view(r@) =~= prev.push(gs[i as int]));
            }
        }
        i = i + 1;
    }
    proof {
        assert(gs.subrange(0, gs.len() as int) =~= gs);
    }
    r
}

/// All stones of the captured groups, flattened in group order.
pub fn get_captured_stones(position: &[Placement]) -> (r: Vec<Placement>)
    requires
        crate::board::valid_position(position@),
    ensures
        exists|gs: Seq<Seq<Placement>>|
            is_components(position@, gs) && r@ == concat_seqs(libless_filter(gs, position@)),
{
    let captured = get_captured_groups(position);
    let ghost cv = vecs_view(captured@);
    let mut r: Vec<Placement> = Vec::new();
    let mut i: usize = 0;
    while i < captured.len()
        invariant
            i <= captured@.len(),
            cv == vecs_view(captured@),
            r@ == concat_seqs(cv.subrange(0, i as int)),
        decreases captured@.len() - i,
    {
        proof {
            assert(cv.subrange(0, i + 1).drop_last() =~= cv.subrange(0, i as int));
            assert(cv.subrange(0, i + 1).last() == cv[i as int]);
        }
        let g = &captured[i];
        let ghost rprev = r@;
        let mut j: usize = 0;
        while j < g.len()
            invariant
                j <= g@.len(),
                r@ == rprev + g@.subrange(0, j as int),
            decreases g@.len() - j,
        {
            r.push(g[j]);
            proof {
                assert(g@.subrange(0, j + 1) =~= g@.subrange(0, j as int).push(g@[j as int]));
            }
            j = j + 1;
        }
        proof {
            assert(g@.subrange(0, g@.len() as int) =~= g@);
        }
        i = i + 1;
    }
    proof {
        assert(cv.subrange(0, cv.len() as int) =~= cv);
    }
    r
}

/// The final state of a batched replay: the stones left, every stone ever
/// removed, and how many moves were played.
pub struct GameState {
    pub position: Vec<Placement>,
    pub captures: Vec<Placement>,
    pub number_of_moves: usize,
}

/// The batched replay relation from move i and a running state: each move
/// is placed, the libertyless maximal components of the resulting position
/// are removed and appended to the capture log, in decomposition order.
pub open spec fn batched_replay_rel(
    moves: Seq<Placement>,
    i: int,
    pos: Seq<Placement>,
    caps: Seq<Placement>,
    fpos: Seq<Placement>,
    fcaps: Seq<Placement>,
) -> bool
    decreases moves.len() - i,
{
    if i < 0 || i >= moves.len() {
        fpos == pos && fcaps == caps
    } else {
        exists|gs: Seq<Seq<Placement>>|
            #![trigger is_components(pos.push(moves[i]), gs)]
            {
                &&& is_components(pos.push(moves[i]), gs)
                &&& batched_replay_rel(
                    moves,
                    i + 1,
                    remove_stones(
                        pos.push(moves[i]),
                        concat_seqs(libless_filter(gs, pos.push(moves[i]))),
                    ),
                    caps + concat_seqs(libless_filter(gs, pos.push(moves[i]))),
                    fpos,
                    fcaps,
                )
            }
    }
}

/// Stones that survive a removal come from the position itself.
proof fn lemma_remove_stones_subset(s: Seq<Placement>, g: Seq<Placement>)
    ensures
        forall|p: Placement| #[trigger] remove_stones(s, g).contains(p) ==> s.contains(p),
    decreases s.len(),
{
    if s.len() > 0 {
        lemma_remove_stones_subset(s.drop_last(), g);
        assert forall|p: Placement| #[trigger] remove_stones(s, g).contains(p) implies s.contains(
            p,
        ) by {
            broadcast use vstd::seq_lib::lemma_seq_contains_after_push;

            if remove_stones(s.drop_last(), g).contains(p) {
                assert(s.drop_last().contains(p));
                let w = choose|w: int| 0 <= w < s.drop_last().len() && s.drop_last()[w] == p;
                assert(s[w] == p);
            }
        }
    }
}

/// Replays a move list on an initially empty board the batched way: after
/// each placement, every maximal connected group without a liberty is
/// removed and its stones are appended to the capture log.
#[verifier::rlimit(100)]
pub fn calculate_position(moves: &[Placement]) -> (r: GameState)
    requires
        crate::board::valid_position(moves@),
    ensures
        r.number_of_moves == moves@.len(),
        batched_replay_rel(moves@, 0, Seq::empty(), Seq::empty(), r.position@, r.captures@),
{
    let mut position: Vec<Placement> = Vec::new();
    let mut captures: Vec<Placement> = Vec::new();
    let mut i: usize = 0;
    while i < moves.len()
        invariant
            crate::board::valid_position(moves@),
            crate::board::valid_position(position@),
            i <= moves@.len(),
            forall|fp: Seq<Placement>, fc: Seq<Placement>|
                #[trigger] batched_replay_rel(moves@, i as int, position@, captures@, fp, fc)
                    ==> batched_replay_rel(moves@, 0, Seq::empty(), Seq::empty(), fp, fc),
        decreases moves@.len() - i,
    {
        let ghost old_pos = position@;
        let ghost old_caps = captures@;
        position.push(moves[i]);
        let ghost pushed = position@;
        let mut captured = get_captured_stones(position.as_slice());
        let ghost gs = choose|gs: Seq<Seq<Placement>>|
            is_components(pushed, gs) && captured@ == concat_seqs(libless_filter(gs, pushed));
        let np = remove_stones_vec(&position, captured.as_slice());
        position = np;
        captures.append(&mut captured);
        proof {
            lemma_remove_stones_subset(pushed, concat_seqs(libless_filter(gs, pushed)));
            assert(crate::board::valid_position(position@)) by {
                assert forall|k: int|
                    0 <= k < position@.len() implies crate::board::valid_placement(
                    #[trigger] position@[k],
                ) by {
                    assert(position@.contains(position@[k]));
                    assert(pushed.contains(position@[k]));
                    let w = choose|w: int| 0 <= w < pushed.len() && pushed[w] == position@[k];
                }
            }
            assert forall|fp: Seq<Placement>, fc: Seq<Placement>|
                #[trigger] batched_replay_rel(
                    moves@,
                    i as int + 1,
                    position@,
                    captures@,
                    fp,
                    fc,
                ) implies batched_replay_rel(moves@, i as int, old_pos, old_caps, fp, fc) by {
                assert(pushed == old_pos.push(moves@[i as int]));
                assert(is_components(old_pos.push(moves@[i as int]), gs));
                assert(batched_replay_rel(
                    moves@,
                    i as int + 1,
                    remove_stones(
                        old_pos.push(moves@[i as int]),
                        concat_seqs(libless_filter(gs, old_pos.push(moves@[i as int]))),
                    ),
                    old_caps + concat_seqs(libless_filter(gs, old_pos.push(moves@[i as int]))),
                    fp,
                    fc,
                ));
            }
        }
        i = i + 1;
    }
    proof {
        assert(batched_replay_rel(
            moves@,
            moves@.len() as int,
            position@,
            captures@,
            position@,
            captures@,
        ));
    }
    let number_of_moves = moves.len();
    GameState { position, captures, number_of_moves }
}

} // verus!