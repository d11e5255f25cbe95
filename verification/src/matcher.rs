//! The position matcher: tries the eight board symmetries (and their
//! color-inverted counterparts) against every game, scores matches by how
//! empty the surroundings are, and orders the results.
use crate::board::{valid_position, Color, Placement, Point, Rotation};
use crate::codec::captures_view;
use crate::game::Game;
use crate::symmetry::{
    all_contained, check_empty, check_within_one_quadrant, get_mirrored, get_rotated,
    get_surrounding_points, in_window, match_game, match_last_index, mirrored_seq, rotated_seq,
    switch_colors, switched_seq, within_one_quadrant,
};
use vstd::prelude::*;

verus! {

/// The rotation that maps the game's frame back onto the query's frame: a
/// quarter turn is undone by the opposite quarter turn.
pub fn get_moves_rotation(query_rotation: &Rotation) -> (r: Rotation)
    ensures
        r == spec_moves_rotation(*query_rotation),
{
    match query_rotation {
        Rotation::Degrees90 => Rotation::Degrees270,
        Rotation::Degrees270 => Rotation::Degrees90,
        Rotation::Degrees180 => Rotation::Degrees180,
    }
}

pub open spec fn spec_moves_rotation(r: Rotation) -> Rotation {
    match r {
        Rotation::Degrees90 => Rotation::Degrees270,
        Rotation::Degrees270 => Rotation::Degrees90,
        Rotation::Degrees180 => Rotation::Degrees180,
    }
}

/// The 1-based index a rotation tag is reported as.
pub fn get_rotation_index(r: &Rotation) -> (i: u8)
    ensures
        i == spec_rotation_index(*r),
{
    match r {
        Rotation::Degrees90 => 1,
        Rotation::Degrees180 => 2,
        Rotation::Degrees270 => 3,
    }
}

pub open spec fn spec_rotation_index(r: Rotation) -> u8 {
    match r {
        Rotation::Degrees90 => 1u8,
        Rotation::Degrees180 => 2u8,
        Rotation::Degrees270 => 3u8,
    }
}

pub open spec fn rotation_of_index(k: int) -> Rotation {
    if k == 1 {
        Rotation::Degrees90
    } else if k == 2 {
        Rotation::Degrees180
    } else {
        Rotation::Degrees270
    }
}

/// The sixteen match attempts, in priority order: the query as given, its
/// three rotations, its mirror, the mirror's rotations, and the same eight
/// again with the colors inverted.
pub open spec fn attempt_query(q: Seq<Placement>, k: int) -> Seq<Placement> {
    let base = if k < 8 {
        q
    } else {
        switched_seq(q)
    };
    let m = k % 8;
    if m == 0 {
        base
    } else if 1 <= m <= 3 {
        rotated_seq(rotation_of_index(m), base)
    } else if m == 4 {
        mirrored_seq(base)
    } else {
        rotated_seq(rotation_of_index(m - 4), mirrored_seq(base))
    }
}

pub open spec fn attempt_inverted(k: int) -> bool {
    k >= 8
}

pub open spec fn attempt_mirrored(k: int) -> bool {
    4 <= k % 8
}

pub open spec fn attempt_rotation(k: int) -> u8 {
    let m = k % 8;
    if 1 <= m <= 3 {
        spec_rotation_index(rotation_of_index(m))
    } else if 5 <= m <= 7 {
        spec_rotation_index(rotation_of_index(m - 4))
    } else {
        0u8
    }
}

/// The base score of each attempt; mirrored attempts without a quadrant-
/// local query are heavily de-weighted.
pub open spec fn attempt_score(k: int, in_quadrant: bool) -> int {
    let m = k % 8;
    let inv = if k >= 8 {
        10int
    } else {
        0int
    };
    if m == 0 {
        100 - inv
    } else if m <= 3 {
        99 - inv
    } else {
        let mirror_base = if in_quadrant {
            100 - inv
        } else if k >= 8 {
            9
        } else {
            10
        };
        if m == 4 {
            mirror_base
        } else {
            mirror_base - 1
        }
    }
}

/// The game's moves carried into the query's frame for each attempt; color
/// inversion is not applied here but reported through the inverted flag.
pub open spec fn attempt_moves_transformed(moves: Seq<Placement>, k: int) -> Seq<Placement> {
    let m = k % 8;
    if m == 0 {
        moves
    } else if 1 <= m <= 3 {
        rotated_seq(spec_moves_rotation(rotation_of_index(m)), moves)
    } else if m == 4 {
        mirrored_seq(moves)
    } else {
        rotated_seq(rotation_of_index(m - 4), mirrored_seq(moves))
    }
}

/// The first attempt whose transformed query lies inside the move list.
pub open spec fn first_attempt_from(q: Seq<Placement>, moves: Seq<Placement>, k: int) -> Option<
    int,
>
    decreases 16 - k,
{
    if k >= 16 {
        None
    } else if all_contained(attempt_query(q, k), moves) {
        Some(k)
    } else {
        first_attempt_from(q, moves, k + 1)
    }
}

pub open spec fn first_attempt(q: Seq<Placement>, moves: Seq<Placement>) -> Option<int> {
    first_attempt_from(q, moves, 0)
}

/// Builds the sixteen transformed queries, in attempt order.
pub fn build_attempts(position: &[Placement]) -> (r: Vec<Vec<Placement>>)
    requires
        valid_position(position@),
    ensures
        r@.len() == 16,
        forall|k: int| 0 <= k < 16 ==> (#[trigger] r@[k])@ == attempt_query(position@, k),
{
    let mut r: Vec<Vec<Placement>> = Vec::new();
    let idq = copy_placements(position);
    r.push(idq);
    r.push(get_rotated(position, &Rotation::Degrees90));
    r.push(get_rotated(position, &Rotation::Degrees180));
    r.push(get_rotated(position, &Rotation::Degrees270));
    let mir = get_mirrored(position);
    let m1 = get_rotated(mir.as_slice(), &Rotation::Degrees90);
    let m2 = get_rotated(mir.as_slice(), &Rotation::Degrees180);
    let m3 = get_rotated(mir.as_slice(), &Rotation::Degrees270);
    r.push(mir);
    r.push(m1);
    r.push(m2);
    r.push(m3);
    let inverse = switch_colors(position);
    let inv_copy = copy_placements(inverse.as_slice());
    r.push(inv_copy);
    r.push(get_rotated(inverse.as_slice(), &Rotation::Degrees90));
    r.push(get_rotated(inverse.as_slice(), &Rotation::Degrees180));
    r.push(get_rotated(inverse.as_slice(), &Rotation::Degrees270));
    let imir = get_mirrored(inverse.as_slice());
    let im1 = get_rotated(imir.as_slice(), &Rotation::Degrees90);
    let im2 = get_rotated(imir.as_slice(), &Rotation::Degrees180);
    let im3 = get_rotated(imir.as_slice(), &Rotation::Degrees270);
    r.push(imir);
    r.push(im1);
    r.push(im2);
    r.push(im3);
    proof {
        assert(r@[0]@ == attempt_query(position@, 0));
        assert(r@[1]@ == attempt_query(position@, 1));
        assert(r@[2]@ == attempt_query(position@, 2));
        assert(r@[3]@ == attempt_query(position@, 3));
        assert(r@[4]@ == attempt_query(position@, 4));
        assert(r@[5]@ == attempt_query(position@, 5));
        assert(r@[6]@ == attempt_query(position@, 6));
        assert(r@[7]@ == attempt_query(position@, 7));
        assert(r@[8]@ == attempt_query(position@, 8));
        assert(r@[9]@ == attempt_query(position@, 9));
        assert(r@[10]@ == attempt_query(position@, 10));
        assert(r@[11]@ == attempt_query(position@, 11));
        assert(r@[12]@ == attempt_query(position@, 12));
        assert(r@[13]@ == attempt_query(position@, 13));
        assert(r@[14]@ == attempt_query(position@, 14));
        assert(r@[15]@ == attempt_query(position@, 15));
    }
    r
}

pub open spec fn q_has_point(q: Seq<Placement>, p: Point) -> bool {
    exists|j: int| 0 <= j < q.len() && (#[trigger] q[j]).point == p
}

/// The points of a query stone's window that this radius pass still has to
/// check: inside the clipped window, not a query point, not yet checked,
/// and not captured.
pub open spec fn window_fresh(
    q: Seq<Placement>,
    center: Point,
    i: int,
    checked: Set<Point>,
    captured: Seq<Point>,
) -> Set<Point> {
    Set::new(
        |p: Point|
            in_window(p, center, i as u8) && !q_has_point(q, p) && !checked.contains(p)
                && !captured.contains(p),
    )
}

/// No move of the truncated game lands on a fresh point.
pub open spec fn empty_ok(fresh: Set<Point>, truncated: Seq<Placement>) -> bool {
    forall|t: int| 0 <= t < truncated.len() ==> !fresh.contains((#[trigger] truncated[t]).point)
}

/// One radius pass over the query stones, from stone j on: each clean
/// window adds three times the radius to the score; the first unclean
/// window stops the pass. Checked points accumulate either way.
pub open spec fn placements_scan(
    q: Seq<Placement>,
    j: int,
    i: int,
    checked: Set<Point>,
    captured: Seq<Point>,
    truncated: Seq<Placement>,
) -> (int, bool, Set<Point>)
    decreases q.len() - j,
{
    if j < 0 || j >= q.len() {
        (0, true, checked)
    } else {
        let fresh = window_fresh(q, q[j].point, i, checked, captured);
        let checked2 = checked.union(fresh);
        if empty_ok(fresh, truncated) {
            let rest = placements_scan(q, j + 1, i, checked2, captured, truncated);
            (3 * i + rest.0, rest.1, rest.2)
        } else {
            (0, false, checked2)
        }
    }
}

/// The radius passes from radius i up to three, threading the checked set
/// and the largest contiguous clean radius.
pub open spec fn radius_scan(
    q: Seq<Placement>,
    i: int,
    checked: Set<Point>,
    captured: Seq<Point>,
    truncated: Seq<Placement>,
    within: int,
) -> (int, int, Set<Point>)
    decreases 4 - i,
{
    if i < 1 || i > 3 {
        (0, within, checked)
    } else {
        let pass = placements_scan(q, 0, i, checked, captured, truncated);
        let w2 = if pass.1 && within == i - 1 {
            within + 1
        } else {
            within
        };
        let rest = radius_scan(q, i + 1, pass.2, captured, truncated, w2);
        (pass.0 + rest.0, rest.1, rest.2)
    }
}

/// The score bonus and the clean radius of a matched game around a query.
pub open spec fn spec_empty_score(
    q: Seq<Placement>,
    captured: Seq<Point>,
    truncated: Seq<Placement>,
) -> (int, int) {
    let t = radius_scan(q, 1, Set::empty(), captured, truncated, 0);
    (t.0, t.1)
}

proof fn lemma_placements_scan_bounds(
    q: Seq<Placement>,
    j: int,
    i: int,
    checked: Set<Point>,
    captured: Seq<Point>,
    truncated: Seq<Placement>,
)
    requires
        0 <= j,
        1 <= i <= 3,
    ensures
        0 <= placements_scan(q, j, i, checked, captured, truncated).0 <= 3 * i * (if j <= q.len() {
            q.len() - j
        } else {
            0
        }),
    decreases q.len() - j,
{
    assert(3 * i * (if j <= q.len() {
        q.len() - j
    } else {
        0
    }) >= 0) by (nonlinear_arith)
        requires
            1 <= i,
    ;
    if j < q.len() {
        let fresh = window_fresh(q, q[j].point, i, checked, captured);
        lemma_placements_scan_bounds(q, j + 1, i, checked.union(fresh), captured, truncated);
        assert(3 * i + 3 * i * (q.len() - j - 1) == 3 * i * (q.len() - j)) by (nonlinear_arith);
    }
}

/// The remaining score a radius scan can still add, per starting radius.
pub open spec fn radius_budget(i: int) -> int {
    if i == 1 {
        18
    } else if i == 2 {
        15
    } else if i == 3 {
        9
    } else {
        0
    }
}

proof fn lemma_radius_scan_bounds(
    q: Seq<Placement>,
    i: int,
    checked: Set<Point>,
    captured: Seq<Point>,
    truncated: Seq<Placement>,
    within: int,
)
    requires
        1 <= i <= 4,
        0 <= within < i,
    ensures
        ({
            let t = radius_scan(q, i, checked, captured, truncated, within);
            &&& 0 <= t.0 <= radius_budget(i) * q.len()
            &&& within <= t.1 <= 3
        }),
    decreases 4 - i,
{
    assert(radius_budget(i) * q.len() >= 0) by (nonlinear_arith)
        requires
            radius_budget(i) >= 0,
    ;
    if i <= 3 {
        let pass = placements_scan(q, 0, i, checked, captured, truncated);
        lemma_placements_scan_bounds(q, 0, i, checked, captured, truncated);
        let w2 = if pass.1 && within == i - 1 {
            within + 1
        } else {
            within
        };
        lemma_radius_scan_bounds(q, i + 1, pass.2, captured, truncated, w2);
        let rest = radius_scan(q, i + 1, pass.2, captured, truncated, w2);
        assert(3 * i * q.len() + radius_budget(i + 1) * q.len() == radius_budget(i) * q.len())
            by (nonlinear_arith)
            requires
                3 * i + radius_budget(i + 1) == radius_budget(i),
        ;
    }
}

fn contains_point(pts: &Vec<Point>, p: Point) -> (b: bool)
    ensures
        b == pts@.contains(p),
{
    let mut i: usize = 0;
    while i < pts.len()
        invariant
            i <= pts@.len(),
            forall|k: int| 0 <= k < i ==> pts@[k] != p,
        decreases pts@.len() - i,
    {
        if pts[i] == p {
            return true;
        }
        i = i + 1;
    }
    false
}

pub fn position_has_point(q: &[Placement], p: Point) -> (b: bool)
    ensures
        b == q_has_point(q@, p),
{
    let mut i: usize = 0;
    while i < q.len()
        invariant
            i <= q@.len(),
            forall|k: int| 0 <= k < i ==> (#[trigger] q@[k]).point != p,
        decreases q@.len() - i,
    {
        if q[i].point == p {
            return true;
        }
        i = i + 1;
    }
    false
}

/// Scores the surroundings of a matched query: for each radius one to
/// three, every query stone's still-unchecked window must be empty in the
/// truncated game; each clean window adds three times the radius, and the
/// whole score is multiplied by one plus the largest contiguous clean
/// radius.
#[verifier::rlimit(100)]
fn score_empties(query: &[Placement], truncated: &[Placement], captured: &Vec<Point>, base: i16) -> (r:
    (i16, u8))
    requires
        0 <= base <= 100,
        query@.len() <= 400,
        valid_position(query@),
    ensures
        ({
            let t = spec_empty_score(query@, captured@, truncated@);
            &&& r.0 == (base + t.0) * (1 + t.1)
            &&& r.1 == t.1
            &&& 0 <= t.1 <= 3
            &&& 0 <= r.0 <= 29200
        }),
{
    let ghost full = radius_scan(query@, 1, Set::empty(), captured@, truncated@, 0);
    proof {
        lemma_radius_scan_bounds(query@, 1, Set::empty(), captured@, truncated@, 0);
    }
    let mut checked: Vec<Point> = Vec::new();
    let ghost mut cset = Set::<Point>::empty();
    let mut score: i16 = base;
    let mut within: u8 = 0;
    let mut i: usize = 1;
    while i <= 3
        invariant
            1 <= i <= 4,
            query@.len() <= 400,
            valid_position(query@),
            0 <= base <= 100,
            within < i,
            within <= 3,
            forall|p: Point| checked@.contains(p) <==> cset.contains(p),
            full == radius_scan(query@, 1, Set::empty(), captured@, truncated@, 0),
            radius_scan(query@, i as int, cset, captured@, truncated@, within as int) == (
                full.0 - (score - base),
                full.1,
                full.2,
            ),
            0 <= score - base,
            score - base <= full.0,
            0 <= full.0 <= 7200,
        decreases 4 - i,
    {
        let ghost rs_here = radius_scan(
            query@,
            i as int,
            cset,
            captured@,
            truncated@,
            within as int,
        );
        let ghost cset0 = cset;
        let ghost pass_full = placements_scan(query@, 0, i as int, cset, captured@, truncated@);
        let ghost score_start = score;
        proof {
            lemma_placements_scan_bounds(query@, 0, i as int, cset, captured@, truncated@);
            assert(3 * (i as int) * query@.len() <= 3600) by (nonlinear_arith)
                requires
                    1 <= i <= 3,
                    query@.len() <= 400,
            ;
        }
        let mut ok = true;
        let mut j: usize = 0;
        while j < query.len() && ok
            invariant
                1 <= i <= 3,
                query@.len() <= 400,
                valid_position(query@),
                j <= query@.len(),
                0 <= base <= 100,
                0 <= score_start - base <= 7200,
                0 <= pass_full.0 <= 3600,
                forall|p: Point| checked@.contains(p) <==> cset.contains(p),
                pass_full == placements_scan(query@, 0, i as int, cset0, captured@, truncated@),
                score_start <= score,
                ok ==> placements_scan(query@, j as int, i as int, cset, captured@, truncated@)
                    == (pass_full.0 - (score - score_start), pass_full.1, pass_full.2),
                !ok ==> pass_full == ((score - score_start) as int, false, cset),
                score - score_start <= pass_full.0,
            decreases query@.len() - j,
        {
            let p = query[j];
            let ghost fresh = window_fresh(query@, p.point, i as int, cset, captured@);
            let surrounding = get_surrounding_points(&p.point, i as u8);
            let mut filtered: Vec<Point> = Vec::new();
            let mut t: usize = 0;
            while t < surrounding.len()
                invariant
                    t <= surrounding@.len(),
                    fresh == window_fresh(query@, p.point, i as int, cset, captured@),
                    forall|pt: Point|
                        surrounding@.contains(pt) <==> in_window(pt, p.point, i as u8),
                    forall|p2: Point| checked@.contains(p2) <==> cset.contains(p2),
                    forall|pt: Point| #[trigger]
                        filtered@.contains(pt) <==> fresh.contains(pt)
                            && surrounding@.subrange(0, t as int).contains(pt),
                decreases surrounding@.len() - t,
            {
                let q0 = surrounding[t];
                proof {
                    assert(surrounding@.contains(q0));
                    assert(surrounding@.subrange(0, t + 1) =~= surrounding@.subrange(
                        0,
                        t as int,
                    ).push(q0));
                    broadcast use vstd::seq_lib::lemma_seq_contains_after_push;

                }
                if !position_has_point(query, q0) && !contains_point(&checked, q0)
                    && !contains_point(captured, q0) {
                    let ghost fprev = filtered@;
                    filtered.push(q0);
                    proof {
                        assert(fresh.contains(q0));
                        assert(filtered@ == fprev.push(q0));
                    }
                }
                t = t + 1;
            }
            proof {
                assert(surrounding@.subrange(0, surrounding@.len() as int) =~= surrounding@);
                assert forall|pt: Point| #[trigger] filtered@.contains(pt) <==> fresh.contains(
                    pt,
                ) by {
                    if fresh.contains(pt) {
                        assert(in_window(pt, p.point, i as u8));
                        assert(surrounding@.contains(pt));
                    }
                }
            }
            // Record the fresh points as checked.
            let mut u: usize = 0;
            while u < filtered.len()
                invariant
                    u <= filtered@.len(),
                    forall|p2: Point| #[trigger]
                        checked@.contains(p2) <==> cset.contains(p2) || filtered@.subrange(
                            0,
                            u as int,
                        ).contains(p2),
                decreases filtered@.len() - u,
            {
                proof {
                    assert(filtered@.subrange(0, u + 1) =~= filtered@.subrange(0, u as int).push(
                        filtered@[u as int],
                    ));
                    broadcast use vstd::seq_lib::lemma_seq_contains_after_push;

                }
                checked.push(filtered[u]);
                u = u + 1;
            }
            proof {
                assert(filtered@.subrange(0, filtered@.len() as int) =~= filtered@);
            }
            let ghost cset_new = cset.union(fresh);
            proof {
                cset = cset_new;
                assert forall|p2: Point| #[trigger] checked@.contains(p2) <==> cset.contains(
                    p2,
                ) by {}
            }
            let ce = check_empty(filtered.as_slice(), truncated);
            proof {
                assert(ce == empty_ok(fresh, truncated@));
                lemma_placements_scan_bounds(
                    query@,
                    j as int + 1,
                    i as int,
                    cset_new,
                    captured@,
                    truncated@,
                );
            }
            if ce {
                proof {
                    assert(3 * (i as int) <= 9);
                    assert(score - score_start + 3 * (i as int) <= pass_full.0);
                }
                score = score + 3 * (i as i16);
            } else {
                ok = false;
            }
            j = j + 1;
        }
        proof {
            if ok {
                assert(placements_scan(query@, j as int, i as int, cset, captured@, truncated@)
                    == (0int, true, cset));
            }
            assert(pass_full.0 == score - score_start);
            assert(pass_full.1 == ok);
            assert(pass_full.2 == cset);
        }
        if ok && within as usize == i - 1 {
            within = within + 1;
        }
        proof {
            let w2 = within as int;
            let rest = radius_scan(query@, i as int + 1, cset, captured@, truncated@, w2);
            assert(rs_here == (pass_full.0 + rest.0, rest.1, rest.2));
            lemma_radius_scan_bounds(query@, i as int + 1, cset, captured@, truncated@, w2);
        }
        i = i + 1;
    }
    proof {
        assert(radius_scan(query@, 4, cset, captured@, truncated@, within as int) == (
            0int,
            within as int,
            cset,
        ));
        assert(score == base + full.0);
        assert(within as int == full.1);
        assert(0 <= score <= 7300);
        assert(within <= 3);
        assert(0 <= (score as int) * (1 + within as int) <= 29200) by (nonlinear_arith)
            requires
                0 <= score <= 7300,
                0 <= within <= 3,
        ;
    }
    (score * (1 + within as i16), within)
}

/// The points captured at or before the matched move, in entry order.
pub open spec fn captured_points(caps: Seq<(int, Seq<Placement>)>, last: int) -> Seq<Point>
    decreases caps.len(),
{
    if caps.len() == 0 {
        Seq::empty()
    } else {
        let rest = captured_points(caps.drop_last(), last);
        if caps.last().0 <= last {
            rest + caps.last().1.map_values(|pl: Placement| pl.point)
        } else {
            rest
        }
    }
}

/// Collects the points captured at or before the matched move.
fn collect_captured_points(captures: &Vec<crate::codec::CaptureEntry>, last: usize) -> (r: Vec<
    Point,
>)
    ensures
        r@ == captured_points(captures_view(captures@), last as int),
{
    let mut r: Vec<Point> = Vec::new();
    let mut i: usize = 0;
    while i < captures.len()
        invariant
            i <= captures@.len(),
            r@ == captured_points(captures_view(captures@).subrange(0, i as int), last as int),
        decreases captures@.len() - i,
    {
        let ghost pre = captures_view(captures@).subrange(0, i as int);
        let ghost post = captures_view(captures@).subrange(0, i + 1);
        proof {
            assert(post.drop_last() =~= pre);
            assert(post.last() == captures_view(captures@)[i as int]);
        }
        let entry = &captures[i];
        if entry.move_number <= last {
            let ghost rstart = r@;
            let mut j: usize = 0;
            while j < entry.stones.len()
                invariant
                    j <= entry.stones@.len(),
                    r@ == rstart + entry.stones@.subrange(0, j as int).map_values(
                        |pl: Placement| pl.point,
                    ),
                decreases entry.stones@.len() - j,
            {
                r.push(entry.stones[j].point);
                proof {
                    assert(entry.stones@.subrange(0, j + 1).map_values(|pl: Placement| pl.point)
                        =~= entry.stones@.subrange(0, j as int).map_values(
                        |pl: Placement| pl.point,
                    ).push(entry.stones@[j as int].point));
                }
                j = j + 1;
            }
            proof {
                assert(entry.stones@.subrange(0, entry.stones@.len() as int) =~= entry.stones@);
            }
        }
        i = i + 1;
    }
    proof {
        assert(captures_view(captures@).subrange(0, captures@.len() as int) =~= captures_view(
            captures@,
        ));
    }
    r
}

/// One ranked match: the game, how it matched, and its score.
#[derive(Debug, Clone, PartialEq, Eq)]
pub struct SearchResult {
    pub path: String,
    pub score: i16,
    pub last_move_matched: usize,
    pub rotation: u8,
    pub is_inverted: bool,
    pub is_mirrored: bool,
    pub all_empty_correctly_within: u8,
    pub moves: Vec<Placement>,
    pub moves_transformed: Vec<Placement>,
    pub event: String,
    pub round: String,
    pub location: String,
    pub date: Option<crate::meta::SgfDate>,
    pub player_black: crate::meta::Player,
    pub player_white: crate::meta::Player,
    pub rank_black: crate::meta::Rank,
    pub rank_white: crate::meta::Rank,
    pub komi: Option<u32>,
    pub rules: Option<crate::meta::Rules>,
    pub result: crate::result::GameResult,
}

/// A result's metadata is the game's own.
pub open spec fn result_metadata_matches(g: Game, r: SearchResult) -> bool {
    &&& r.event == g.event
    &&& r.round == g.round
    &&& r.location == g.location
    &&& r.date == g.date
    &&& r.player_black == g.player_black
    &&& r.player_white == g.player_white
    &&& r.rank_black == g.rank_black
    &&& r.rank_white == g.rank_white
    &&& r.komi == g.komi
    &&& r.rules == g.rules
    &&& r.result == g.result
}

/// The exact result record for a game matched at attempt k.
pub open spec fn pre_result_matches(
    q: Seq<Placement>,
    in_quad: bool,
    name: Seq<char>,
    g: Game,
    r: SearchResult,
    k: int,
) -> bool {
    let last = match_last_index(attempt_query(q, k), g.moves@);
    let base = attempt_score(k, in_quad);
    let mt = attempt_moves_transformed(g.moves@, k);
    let cap = captured_points(captures_view(g.captures@), last);
    let t = spec_empty_score(q, cap, mt.subrange(0, last));
    &&& r.path@ == name
    &&& r.last_move_matched == last
    &&& r.rotation == attempt_rotation(k)
    &&& r.is_inverted == attempt_inverted(k)
    &&& r.is_mirrored == attempt_mirrored(k)
    &&& r.all_empty_correctly_within == t.1
    &&& r.moves@ == g.moves@
    &&& r.moves_transformed@ == mt
    &&& r.score == (base + t.0) * (1 + t.1) - last
    &&& result_metadata_matches(g, r)
}

/// The exact result record for a game under its first matching attempt.
pub open spec fn result_for_game(
    q: Seq<Placement>,
    in_quad: bool,
    name: Seq<char>,
    g: Game,
    r: SearchResult,
) -> bool {
    match first_attempt(q, g.moves@) {
        Some(k) => pre_result_matches(q, in_quad, name, g, r, k),
        None => false,
    }
}

/// The result record every game receives for an empty query.
pub open spec fn empty_result_matches(name: Seq<char>, g: Game, r: SearchResult) -> bool {
    &&& r.path@ == name
    &&& r.score == 0
    &&& r.last_move_matched == 0
    &&& r.rotation == 0
    &&& !r.is_inverted
    &&& !r.is_mirrored
    &&& r.all_empty_correctly_within == 0
    &&& r.moves@ == g.moves@
    &&& r.moves_transformed@ == g.moves@
    &&& result_metadata_matches(g, r)
}

/// The per-game results in corpus order: one for each game some attempt
/// matches, none for the others.
pub open spec fn results_collected(
    q: Seq<Placement>,
    in_quad: bool,
    games: Seq<(String, Game)>,
    rs: Seq<SearchResult>,
) -> bool
    decreases games.len(),
{
    if games.len() == 0 {
        rs.len() == 0
    } else {
        if first_attempt(q, games[0].1.moves@) is Some {
            &&& rs.len() > 0
            &&& result_for_game(q, in_quad, games[0].0@, games[0].1, rs[0])
            &&& results_collected(q, in_quad, games.drop_first(), rs.drop_first())
        } else {
            results_collected(q, in_quad, games.drop_first(), rs)
        }
    }
}

proof fn lemma_collected_push(
    q: Seq<Placement>,
    in_quad: bool,
    games: Seq<(String, Game)>,
    rs: Seq<SearchResult>,
    g: (String, Game),
    r: Option<SearchResult>,
)
    requires
        results_collected(q, in_quad, games, rs),
        match r {
            Some(x) => first_attempt(q, g.1.moves@) is Some && result_for_game(
                q,
                in_quad,
                g.0@,
                g.1,
                x,
            ),
            None => first_attempt(q, g.1.moves@) is None,
        },
    ensures
        results_collected(
            q,
            in_quad,
            games.push(g),
            match r {
                Some(x) => rs.push(x),
                None => rs,
            },
        ),
    decreases games.len(),
{
    reveal_with_fuel(results_collected, 3);
    if games.len() == 0 {
        match r {
            Some(x) => {
                assert(games.push(g)[0] == g);
                assert(games.push(g).drop_first() =~= Seq::<(String, Game)>::empty());
                assert(rs.push(x)[0] == x);
                assert(rs.push(x).drop_first() =~= Seq::<SearchResult>::empty());
            },
            None => {
                assert(games.push(g)[0] == g);
                assert(games.push(g).drop_first() =~= Seq::<(String, Game)>::empty());
            },
        }
    } else {
        assert(games.push(g).drop_first() =~= games.drop_first().push(g));
        assert(games.push(g)[0] == games[0]);
        if first_attempt(q, games[0].1.moves@) is Some {
            lemma_collected_push(q, in_quad, games.drop_first(), rs.drop_first(), g, r);
            match r {
                Some(x) => {
                    assert(rs.push(x)[0] == rs[0]);
                    assert(rs.push(x).drop_first() =~= rs.drop_first().push(x));
                },
                None => {},
            }
        } else {
            lemma_collected_push(q, in_quad, games.drop_first(), rs, g, r);
        }
    }
}

/// Stable insertion of a result into a score-descending run: it lands
/// after every at-least-as-high score.
pub open spec fn insert_by_score(s: Seq<SearchResult>, x: SearchResult) -> Seq<SearchResult>
    decreases s.len(),
{
    if s.len() == 0 {
        seq![x]
    } else if s.last().score >= x.score {
        s.push(x)
    } else {
        insert_by_score(s.drop_last(), x).push(s.last())
    }
}

/// The results sorted by score descending, equal scores in given order.
pub open spec fn sort_by_score(s: Seq<SearchResult>) -> Seq<SearchResult>
    decreases s.len(),
{
    if s.len() == 0 {
        Seq::empty()
    } else {
        insert_by_score(sort_by_score(s.drop_last()), s.last())
    }
}

/// Stable insertion of a result into a last-move-ascending run.
pub open spec fn insert_by_last(s: Seq<SearchResult>, x: SearchResult) -> Seq<SearchResult>
    decreases s.len(),
{
    if s.len() == 0 {
        seq![x]
    } else if s.last().last_move_matched <= x.last_move_matched {
        s.push(x)
    } else {
        insert_by_last(s.drop_last(), x).push(s.last())
    }
}

/// The results sorted by earliest matched move first, ties in given order.
pub open spec fn sort_by_last(s: Seq<SearchResult>) -> Seq<SearchResult>
    decreases s.len(),
{
    if s.len() == 0 {
        Seq::empty()
    } else {
        insert_by_last(sort_by_last(s.drop_last()), s.last())
    }
}

proof fn lemma_insert_by_score_at(s: Seq<SearchResult>, x: SearchResult, p: int)
    requires
        0 <= p <= s.len(),
        forall|t: int| p <= t < s.len() ==> (#[trigger] s[t]).score < x.score,
        p == 0 || s[p - 1].score >= x.score,
    ensures
        insert_by_score(s, x) == s.subrange(0, p).push(x) + s.subrange(p, s.len() as int),
    decreases s.len() - p,
{
    if p == s.len() {
        if s.len() == 0 || s.last().score >= x.score {
            assert(insert_by_score(s, x) =~= s.subrange(0, p).push(x) + s.subrange(
                p,
                s.len() as int,
            ));
        }
    } else {
        assert(s.last().score < x.score);
        lemma_insert_by_score_at(s.drop_last(), x, p);
        assert(s.drop_last().subrange(0, p) =~= s.subrange(0, p));
        assert(s.drop_last().subrange(p, s.len() - 1) =~= s.subrange(p, s.len() - 1));
        assert((s.subrange(0, p).push(x) + s.subrange(p, s.len() - 1)).push(s.last()) =~= s.subrange(
            0,
            p,
        ).push(x) + s.subrange(p, s.len() as int));
    }
}

proof fn lemma_insert_by_last_at(s: Seq<SearchResult>, x: SearchResult, p: int)
    requires
        0 <= p <= s.len(),
        forall|t: int| p <= t < s.len() ==> (#[trigger] s[t]).last_move_matched
            > x.last_move_matched,
        p == 0 || s[p - 1].last_move_matched <= x.last_move_matched,
    ensures
        insert_by_last(s, x) == s.subrange(0, p).push(x) + s.subrange(p, s.len() as int),
    decreases s.len() - p,
{
    if p == s.len() {
        if s.len() == 0 || s.last().last_move_matched <= x.last_move_matched {
            assert(insert_by_last(s, x) =~= s.subrange(0, p).push(x) + s.subrange(
                p,
                s.len() as int,
            ));
        }
    } else {
        assert(s.last().last_move_matched > x.last_move_matched);
        lemma_insert_by_last_at(s.drop_last(), x, p);
        assert(s.drop_last().subrange(0, p) =~= s.subrange(0, p));
        assert(s.drop_last().subrange(p, s.len() - 1) =~= s.subrange(p, s.len() - 1));
        assert((s.subrange(0, p).push(x) + s.subrange(p, s.len() - 1)).push(s.last()) =~= s.subrange(
            0,
            p,
        ).push(x) + s.subrange(p, s.len() as int));
    }
}

/// Sorts results by score descending, keeping equal scores in input order.
fn sort_results_by_score(mut v: Vec<SearchResult>) -> (r: Vec<SearchResult>)
    ensures
        r@ == sort_by_score(v@),
{
    let ghost orig = v@;
    let mut out: Vec<SearchResult> = Vec::new();
    let mut i: usize = 0;
    let n = v.len();
    while i < n
        invariant
            i <= n,
            n == orig.len(),
            v@ == orig.skip(i as int),
            out@ == sort_by_score(orig.subrange(0, i as int)),
        decreases n - i,
    {
        proof {
            assert(orig.subrange(0, i + 1).drop_last() =~= orig.subrange(0, i as int));
            assert(orig.subrange(0, i + 1).last() == orig[i as int]);
            assert(orig.skip(i as int)[0] == orig[i as int]);
        }
        let x = v.remove(0);
        proof {
            assert(v@ =~= orig.skip(i + 1));
        }
        let ghost xv = x;
        let mut p: usize = out.len();
        while p > 0 && out[p - 1].score < x.score
            invariant
                p <= out@.len(),
                forall|t: int| p <= t < out@.len() ==> (#[trigger] out@[t]).score < xv.score,
                xv == x,
            decreases p,
        {
            p = p - 1;
        }
        proof {
            lemma_insert_by_score_at(out@, xv, p as int);
        }
        out.insert(p, x);
        i = i + 1;
    }
    proof {
        assert(orig.subrange(0, orig.len() as int) =~= orig);
    }
    out
}

/// Sorts results by earliest matched move first, keeping ties in input
/// order.
fn sort_results_by_last(mut v: Vec<SearchResult>) -> (r: Vec<SearchResult>)
    ensures
        r@ == sort_by_last(v@),
{
    let ghost orig = v@;
    let mut out: Vec<SearchResult> = Vec::new();
    let mut i: usize = 0;
    let n = v.len();
    while i < n
        invariant
            i <= n,
            n == orig.len(),
            v@ == orig.skip(i as int),
            out@ == sort_by_last(orig.subrange(0, i as int)),
        decreases n - i,
    {
        proof {
            assert(orig.subrange(0, i + 1).drop_last() =~= orig.subrange(0, i as int));
            assert(orig.subrange(0, i + 1).last() == orig[i as int]);
            assert(orig.skip(i as int)[0] == orig[i as int]);
        }
        let x = v.remove(0);
        proof {
            assert(v@ =~= orig.skip(i + 1));
        }
        let ghost xv = x;
        let mut p: usize = out.len();
        while p > 0 && out[p - 1].last_move_matched > x.last_move_matched
            invariant
                p <= out@.len(),
                forall|t: int| p <= t < out@.len() ==> (#[trigger] out@[t]).last_move_matched
                    > xv.last_move_matched,
                xv == x,
            decreases p,
        {
            p = p - 1;
        }
        proof {
            lemma_insert_by_last_at(out@, xv, p as int);
        }
        out.insert(p, x);
        i = i + 1;
    }
    proof {
        assert(orig.subrange(0, orig.len() as int) =~= orig);
    }
    out
}

/// An equal placement list.
pub fn copy_placements(position: &[Placement]) -> (r: Vec<Placement>)
    ensures
        r@ == position@,
{
    let mut r: Vec<Placement> = Vec::new();
    let mut i: usize = 0;
    while i < position.len()
        invariant
            i <= position@.len(),
            r@ =~= position@.subrange(0, i as int),
        decreases position@.len() - i,
    {
        r.push(position[i]);
        i = i + 1;
    }
    proof {
        assert(r@ =~= position@);
    }
    r
}


proof fn lemma_first_attempt_some(q: Seq<Placement>, moves: Seq<Placement>, s: int, k: int)
    requires
        0 <= s <= k < 16,
        all_contained(attempt_query(q, k), moves),
        forall|k2: int| s <= k2 < k ==> !all_contained(attempt_query(q, #[trigger] (k2 + 0)), moves),
    ensures
        first_attempt_from(q, moves, s) == Some(k),
    decreases 16 - s,
{
    if s < k {
        assert(!all_contained(attempt_query(q, s), moves)) by {
            assert(!all_contained(attempt_query(q, s + 0), moves));
        }
        lemma_first_attempt_some(q, moves, s + 1, k);
    }
}

proof fn lemma_first_attempt_none(q: Seq<Placement>, moves: Seq<Placement>, s: int)
    requires
        0 <= s <= 16,
        forall|k2: int| s <= k2 < 16 ==> !all_contained(attempt_query(q, #[trigger] (k2 + 0)), moves),
    ensures
        first_attempt_from(q, moves, s) is None,
    decreases 16 - s,
{
    if s < 16 {
        assert(!all_contained(attempt_query(q, s), moves)) by {
            assert(!all_contained(attempt_query(q, s + 0), moves));
        }
        lemma_first_attempt_none(q, moves, s + 1);
    }
}

fn rotation_from_index(m: usize) -> (r: Rotation)
    requires
        1 <= m <= 3,
    ensures
        r == rotation_of_index(m as int),
{
    if m == 1 {
        Rotation::Degrees90
    } else if m == 2 {
        Rotation::Degrees180
    } else {
        Rotation::Degrees270
    }
}

/// Carries a game's moves into the query's frame for attempt k.
fn transform_moves(moves: &Vec<Placement>, k: usize) -> (mt: Vec<Placement>)
    requires
        k < 16,
        valid_position(moves@),
    ensures
        mt@ == attempt_moves_transformed(moves@, k as int),
        mt@.len() == moves@.len(),
{
    let m = k % 8;
    if m == 0 {
        copy_placements(moves.as_slice())
    } else if m <= 3 {
        let rot = rotation_from_index(m);
        get_rotated(moves.as_slice(), &get_moves_rotation(&rot))
    } else if m == 4 {
        get_mirrored(moves.as_slice())
    } else {
        let rot = rotation_from_index(m - 4);
        get_rotated(get_mirrored(moves.as_slice()).as_slice(), &rot)
    }
}

/// The base score of attempt k.
fn base_score(k: usize, in_quad: bool) -> (s: i16)
    requires
        k < 16,
    ensures
        s as int == attempt_score(k as int, in_quad),
        0 <= s <= 100,
{
    let m = k % 8;
    let inv: i16 = if k >= 8 {
        10
    } else {
        0
    };
    if m == 0 {
        100 - inv
    } else if m <= 3 {
        99 - inv
    } else {
        let mirror_base: i16 = if in_quad {
            100 - inv
        } else if k >= 8 {
            9
        } else {
            10
        };
        if m == 4 {
            mirror_base
        } else {
            mirror_base - 1
        }
    }
}

/// A corpus the matcher can search: on-board moves, short enough that a
/// matched move index fits the score arithmetic.
pub open spec fn corpus_ok(games: Seq<(String, Game)>) -> bool {
    forall|i: int|
        0 <= i < games.len() ==> valid_position((#[trigger] games[i]).1.moves@)
            && games[i].1.moves@.len() <= 30000
}

/// Matches a query position against every game of the corpus: an empty
/// query returns every game with score zero; otherwise each game's first
/// matching symmetry produces a scored result, and the results are ordered
/// by score descending, then by earliest matched move first.
#[verifier::rlimit(100)]
pub fn match_position(games: &Vec<(String, Game)>, position: &[Placement]) -> (r: Vec<
    SearchResult,
>)
    requires
        valid_position(position@),
        position@.len() <= 400,
        corpus_ok(games@),
    ensures
        position@.len() == 0 ==> r@.len() == games@.len() && (forall|i: int|
            0 <= i < games@.len() ==> empty_result_matches(
                (#[trigger] games@[i]).0@,
                games@[i].1,
                r@[i],
            )),
        position@.len() > 0 ==> exists|mid: Seq<SearchResult>|
            results_collected(position@, within_one_quadrant(position@), games@, mid) && r@
                == sort_by_last(sort_by_score(mid)),
{
    if position.len() == 0 {
        let mut out: Vec<SearchResult> = Vec::new();
        let mut gi: usize = 0;
        while gi < games.len()
            invariant
                gi <= games@.len(),
                out@.len() == gi,
                forall|i: int|
                    0 <= i < gi ==> empty_result_matches(
                        (#[trigger] games@[i]).0@,
                        games@[i].1,
                        out@[i],
                    ),
            decreases games@.len() - gi,
        {
            let (name, game) = &games[gi];
            let date = match &game.date {
                Some(d) => Some(d.duplicate()),
                None => None,
            };
            let rules = match &game.rules {
                Some(ru) => Some(ru.duplicate()),
                None => None,
            };
            out.push(
                SearchResult {
                    path: name.clone(),
                    score: 0,
                    last_move_matched: 0,
                    rotation: 0,
                    is_inverted: false,
                    is_mirrored: false,
                    all_empty_correctly_within: 0,
                    moves: crate::game::duplicate_moves(&game.moves),
                    moves_transformed: crate::game::duplicate_moves(&game.moves),
                    event: game.event.clone(),
                    round: game.round.clone(),
                    location: game.location.clone(),
                    date,
                    player_black: game.player_black.duplicate(),
                    player_white: game.player_white.duplicate(),
                    rank_black: game.rank_black.duplicate(),
                    rank_white: game.rank_white.duplicate(),
                    komi: game.komi,
                    rules,
                    result: game.result.duplicate(),
                },
            );
            gi = gi + 1;
        }
        return out;
    }
    let attempts = build_attempts(position);
    let in_quad = check_within_one_quadrant(position);
    let ghost iq = within_one_quadrant(position@);
    let mut collected: Vec<SearchResult> = Vec::new();
    let mut gi: usize = 0;
    proof {
        assert(games@.subrange(0, 0) =~= Seq::<(String, Game)>::empty());
    }
    while gi < games.len()
        invariant
            valid_position(position@),
            position@.len() > 0,
            position@.len() <= 400,
            corpus_ok(games@),
            in_quad == iq,
            iq == within_one_quadrant(position@),
            attempts@.len() == 16,
            forall|k: int|
                0 <= k < 16 ==> (#[trigger] attempts@[k])@ == attempt_query(position@, k),
            gi <= games@.len(),
            results_collected(position@, iq, games@.subrange(0, gi as int), collected@),
        decreases games@.len() - gi,
    {
        let (name, game) = &games[gi];
        let mut k: usize = 0;
        let mut found = false;
        let mut fk: usize = 0;
        let mut flast: usize = 0;
        while k < 16 && !found
            invariant
                k <= 16,
                attempts@.len() == 16,
                forall|k2: int|
                    0 <= k2 < 16 ==> (#[trigger] attempts@[k2])@ == attempt_query(position@, k2),
                gi < games@.len(),
                game == games@[gi as int].1,
                !found ==> forall|k2: int|
                    0 <= k2 < k ==> !all_contained(
                        attempt_query(position@, #[trigger] (k2 + 0)),
                        game.moves@,
                    ),
                found ==> ({
                    &&& fk < 16
                    &&& all_contained(attempt_query(position@, fk as int), game.moves@)
                    &&& forall|k2: int|
                        0 <= k2 < fk ==> !all_contained(
                            attempt_query(position@, #[trigger] (k2 + 0)),
                            game.moves@,
                        )
                    &&& flast == match_last_index(
                        attempt_query(position@, fk as int),
                        game.moves@,
                    )
                    &&& flast == 0 || flast < game.moves@.len()
                }),
            decreases 16 - k, (if found { 0int } else { 1int }),
        {
            match match_game(attempts[k].as_slice(), game.moves.as_slice()) {
                Some(last) => {
                    found = true;
                    fk = k;
                    flast = last;
                },
                None => {
                    k = k + 1;
                },
            }
        }
        let ghost pre = games@.subrange(0, gi as int);
        let ghost post = games@.subrange(0, gi as int + 1);
        proof {
            assert(post =~= pre.push(games@[gi as int]));
        }
        if found {
            proof {
                lemma_first_attempt_some(position@, game.moves@, 0, fk as int);
            }
            let mt = transform_moves(&game.moves, fk);
            let base = base_score(fk, in_quad);
            let trunc = vstd::slice::slice_subrange(mt.as_slice(), 0, flast);
            let cap = collect_captured_points(&game.captures, flast);
            let (sc, within) = score_empties(position, trunc, &cap, base);
            let final_score = sc - (flast as i16);
            let m = fk % 8;
            let rot: u8 = if 1 <= m && m <= 3 {
                m as u8
            } else if 5 <= m && m <= 7 {
                (m - 4) as u8
            } else {
                0
            };
            proof {
                assert(rot == attempt_rotation(fk as int));
            }
            let date = match &game.date {
                Some(d) => Some(d.duplicate()),
                None => None,
            };
            let rules = match &game.rules {
                Some(ru) => Some(ru.duplicate()),
                None => None,
            };
            let rres = SearchResult {
                path: name.clone(),
                score: final_score,
                last_move_matched: flast,
                rotation: rot,
                is_inverted: fk >= 8,
                is_mirrored: m >= 4,
                all_empty_correctly_within: within,
                moves: crate::game::duplicate_moves(&game.moves),
                moves_transformed: mt,
                event: game.event.clone(),
                round: game.round.clone(),
                location: game.location.clone(),
                date,
                player_black: game.player_black.duplicate(),
                player_white: game.player_white.duplicate(),
                rank_black: game.rank_black.duplicate(),
                rank_white: game.rank_white.duplicate(),
                komi: game.komi,
                rules,
                result: game.result.duplicate(),
            };
            proof {
                assert(pre_result_matches(
                    position@,
                    iq,
                    games@[gi as int].0@,
                    games@[gi as int].1,
                    rres,
                    fk as int,
                ));
                lemma_collected_push(
                    position@,
                    iq,
                    pre,
                    collected@,
                    games@[gi as int],
                    Some(rres),
                );
            }
            collected.push(rres);
        } else {
            proof {
                lemma_first_attempt_none(position@, game.moves@, 0);
                lemma_collected_push(position@, iq, pre, collected@, games@[gi as int], None);
            }
        }
        gi = gi + 1;
    }
    proof {
        assert(games@.subrange(0, games@.len() as int) =~= games@);
    }
    let ghost mid = collected@;
    let s1 = sort_results_by_score(collected);
    let s2 = sort_results_by_last(s1);
    proof {
        assert(results_collected(position@, within_one_quadrant(position@), games@, mid) && s2@
            == sort_by_last(sort_by_score(mid)));
    }
    s2
}


/// The attempt a match reports is a real attempt whose transformed query
/// the game contains in full.
proof fn lemma_first_attempt_contained(q: Seq<Placement>, moves: Seq<Placement>, s: int)
    requires
        0 <= s <= 16,
    ensures
        match first_attempt_from(q, moves, s) {
            Some(k) => s <= k < 16 && all_contained(attempt_query(q, k), moves),
            None => true,
        },
    decreases 16 - s,
{
    if s < 16 && !all_contained(attempt_query(q, s), moves) {
        lemma_first_attempt_contained(q, moves, s + 1);
    }
}

/// Every result the matcher reports for a nonempty query satisfies the
/// subset law: the query, carried through the symmetry the result names,
/// lies entirely within the game's moves up to and including the reported
/// last matched move.
pub proof fn lemma_result_within_prefix(
    q: Seq<Placement>,
    in_quad: bool,
    name: Seq<char>,
    g: Game,
    r: SearchResult,
)
    requires
        result_for_game(q, in_quad, name, g, r),
    ensures
        exists|k: int|
            #![trigger attempt_query(q, k)]
            {
                &&& 0 <= k < 16
                &&& r.rotation == attempt_rotation(k)
                &&& r.is_inverted == attempt_inverted(k)
                &&& r.is_mirrored == attempt_mirrored(k)
                &&& forall|i: int|
                    0 <= i < attempt_query(q, k).len() ==> exists|j: int|
                        0 <= j <= r.last_move_matched && j < g.moves@.len() && g.moves@[j]
                            == #[trigger] attempt_query(q, k)[i]
            },
{
    let k = first_attempt(q, g.moves@).unwrap();
    lemma_first_attempt_contained(q, g.moves@, 0);
    assert(all_contained(attempt_query(q, k), g.moves@));
    crate::symmetry::lemma_match_within_prefix(attempt_query(q, k), g.moves@);
    assert(r.last_move_matched == crate::symmetry::match_last_index(
        attempt_query(q, k),
        g.moves@,
    ));
}


/// A radius scan never grows the clean radius past a gap: once the running
/// value lags the radius, it stays put.
proof fn lemma_within_stuck(
    q: Seq<Placement>,
    i: int,
    checked: Set<Point>,
    captured: Seq<Point>,
    truncated: Seq<Placement>,
    within: int,
)
    requires
        1 <= i <= 4,
        0 <= within < i - 1,
    ensures
        radius_scan(q, i, checked, captured, truncated, within).1 == within,
    decreases 4 - i,
{
    if i <= 3 {
        let pass = placements_scan(q, 0, i, checked, captured, truncated);
        lemma_within_stuck(q, i + 1, pass.2, captured, truncated, within);
    }
}

/// When the reported clean radius reaches past radius i, the pass at
/// radius i itself found every still-unchecked window empty, and the scan
/// went on from radius i+1 with the clean radius advanced: so every radius
/// from one up to the reported value passed its own pass over the
/// cumulatively checked points.
pub proof fn lemma_clean_radius_step(
    q: Seq<Placement>,
    i: int,
    checked: Set<Point>,
    captured: Seq<Point>,
    truncated: Seq<Placement>,
)
    requires
        1 <= i <= 3,
        radius_scan(q, i, checked, captured, truncated, i - 1).1 >= i,
    ensures
        placements_scan(q, 0, i, checked, captured, truncated).1,
        radius_scan(q, i, checked, captured, truncated, i - 1).1 == radius_scan(
            q,
            i + 1,
            placements_scan(q, 0, i, checked, captured, truncated).2,
            captured,
            truncated,
            i,
        ).1,
{
    let pass = placements_scan(q, 0, i, checked, captured, truncated);
    if !pass.1 {
        lemma_within_stuck(q, i + 1, pass.2, captured, truncated, i - 1);
    }
}

} // verus!