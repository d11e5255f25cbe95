//! The eight board symmetries and the primitives of position matching:
//! rotations, mirroring, color inversion, subset matching of a query
//! position against a move list, surrounding-window enumeration and the
//! one-quadrant test.
use crate::board::{in_bounds, valid_placement, valid_position, Color, Placement, Point, Rotation, BOARD_SIZE};
use vstd::prelude::*;

verus! {

pub open spec fn rotated_point(r: Rotation, p: Point) -> Point {
    match r {
        Rotation::Degrees90 => Point { x: (BOARD_SIZE - p.y - 1) as u8, y: p.x },
        Rotation::Degrees180 => Point {
            x: (BOARD_SIZE - p.x - 1) as u8,
            y: (BOARD_SIZE - p.y - 1) as u8,
        },
        Rotation::Degrees270 => Point { x: p.y, y: (BOARD_SIZE - p.x - 1) as u8 },
    }
}

pub open spec fn rotated_placement(r: Rotation, p: Placement) -> Placement {
    Placement { color: p.color, point: rotated_point(r, p.point) }
}

pub open spec fn rotated_seq(r: Rotation, s: Seq<Placement>) -> Seq<Placement> {
    s.map_values(|p: Placement| rotated_placement(r, p))
}

pub open spec fn mirrored_point(p: Point) -> Point {
    Point { x: (BOARD_SIZE - p.x - 1) as u8, y: p.y }
}

pub open spec fn mirrored_placement(p: Placement) -> Placement {
    Placement { color: p.color, point: mirrored_point(p.point) }
}

pub open spec fn mirrored_seq(s: Seq<Placement>) -> Seq<Placement> {
    s.map_values(|p: Placement| mirrored_placement(p))
}

pub open spec fn switched_color(c: Color) -> Color {
    match c {
        Color::Black => Color::White,
        Color::White => Color::Black,
    }
}

pub open spec fn switched_placement(p: Placement) -> Placement {
    Placement { color: switched_color(p.color), point: p.point }
}

pub open spec fn switched_seq(s: Seq<Placement>) -> Seq<Placement> {
    s.map_values(|p: Placement| switched_placement(p))
}

/// Applies a quarter-turn rotation to every placement of a position.
pub fn get_rotated(position: &[Placement], rotation: &Rotation) -> (r: Vec<Placement>)
    requires
        valid_position(position@),
    ensures
        r@ == rotated_seq(*rotation, position@),
        valid_position(r@),
{
    let mut r: Vec<Placement> = Vec::new();
    let mut i: usize = 0;
    while i < position.len()
        invariant
            valid_position(position@),
            i <= position@.len(),
            r@ =~= rotated_seq(*rotation, position@).subrange(0, i as int),
            valid_position(r@),
        decreases position@.len() - i,
    {
        let p = position[i];
        let q = match rotation {
            Rotation::Degrees90 => Point { x: BOARD_SIZE - p.point.y - 1, y: p.point.x },
            Rotation::Degrees180 => Point {
                x: BOARD_SIZE - p.point.x - 1,
                y: BOARD_SIZE - p.point.y - 1,
            },
            Rotation::Degrees270 => Point { x: p.point.y, y: BOARD_SIZE - p.point.x - 1 },
        };
        r.push(Placement { color: p.color, point: q });
        i = i + 1;
    }
    assert(r@ =~= rotated_seq(*rotation, position@));
    r
}

/// Reflects every placement of a position across the vertical middle line.
pub fn get_mirrored(position: &[Placement]) -> (r: Vec<Placement>)
    requires
        valid_position(position@),
    ensures
        r@ == mirrored_seq(position@),
        valid_position(r@),
{
    let mut r: Vec<Placement> = Vec::new();
    let mut i: usize = 0;
    while i < position.len()
        invariant
            valid_position(position@),
            i <= position@.len(),
            r@ =~= mirrored_seq(position@).subrange(0, i as int),
            valid_position(r@),
        decreases position@.len() - i,
    {
        let p = position[i];
        r.push(Placement {
            color: p.color,
            point: Point { x: BOARD_SIZE - p.point.x - 1, y: p.point.y },
        });
        i = i + 1;
    }
    assert(r@ =~= mirrored_seq(position@));
    r
}

/// The opposite stone color.
pub fn switch_one(c: Color) -> (r: Color)
    ensures
        r == switched_color(c),
{
    match c {
        Color::Black => Color::White,
        Color::White => Color::Black,
    }
}

/// Swaps Black and White on every placement of a position.
pub fn switch_colors(position: &[Placement]) -> (r: Vec<Placement>)
    ensures
        r@ == switched_seq(position@),
        valid_position(position@) ==> valid_position(r@),
{
    let mut r: Vec<Placement> = Vec::new();
    let mut i: usize = 0;
    while i < position.len()
        invariant
            i <= position@.len(),
            r@ =~= switched_seq(position@).subrange(0, i as int),
        decreases position@.len() - i,
    {
        let p = position[i];
        let c = if p.color == Color::White {
            Color::Black
        } else {
            Color::White
        };
        r.push(Placement { color: c, point: p.point });
        i = i + 1;
    }
    assert(r@ =~= switched_seq(position@));
    r
}

/// The identity of a position followed by its three quarter-turn rotations.
pub fn all_rotations(position: &[Placement]) -> (r: Vec<Vec<Placement>>)
    requires
        valid_position(position@),
    ensures
        r@.len() == 4,
        r@[0]@ == position@,
        r@[1]@ == rotated_seq(Rotation::Degrees90, position@),
        r@[2]@ == rotated_seq(Rotation::Degrees180, position@),
        r@[3]@ == rotated_seq(Rotation::Degrees270, position@),
{
    let mut r: Vec<Vec<Placement>> = Vec::new();
    let mut ident: Vec<Placement> = Vec::new();
    let mut i: usize = 0;
    while i < position.len()
        invariant
            i <= position@.len(),
            ident@ =~= position@.subrange(0, i as int),
        decreases position@.len() - i,
    {
        ident.push(position[i]);
        i = i + 1;
    }
    assert(ident@ =~= position@);
    r.push(ident);
    r.push(get_rotated(position, &Rotation::Degrees90));
    r.push(get_rotated(position, &Rotation::Degrees180));
    r.push(get_rotated(position, &Rotation::Degrees270));
    r
}

/// The three quarter-turn rotations of a position, in increasing order of angle.
pub fn get_rotations(position: &[Placement]) -> (r: Vec<Vec<Placement>>)
    requires
        valid_position(position@),
    ensures
        r@.len() == 3,
        r@[0]@ == rotated_seq(Rotation::Degrees90, position@),
        r@[1]@ == rotated_seq(Rotation::Degrees180, position@),
        r@[2]@ == rotated_seq(Rotation::Degrees270, position@),
{
    let mut r: Vec<Vec<Placement>> = Vec::new();
    r.push(get_rotated(position, &Rotation::Degrees90));
    r.push(get_rotated(position, &Rotation::Degrees180));
    r.push(get_rotated(position, &Rotation::Degrees270));
    r
}

pub open spec fn all_contained(position: Seq<Placement>, moves: Seq<Placement>) -> bool {
    forall|i: int| 0 <= i < position.len() ==> moves.contains(#[trigger] position[i])
}

/// The latest first-occurrence index over the placements of a position
/// (zero when the position is empty or a placement never occurs).
pub open spec fn match_last_index(position: Seq<Placement>, moves: Seq<Placement>) -> int
    decreases position.len(),
{
    if position.len() == 0 {
        0
    } else {
        let prev = match_last_index(position.drop_last(), moves);
        match moves.index_of_first(position.last()) {
            Some(i) => if i > prev {
                i
            } else {
                prev
            },
            None => prev,
        }
    }
}

/// First index of a placement in a move list, scanning from the front.
fn index_of_placement(moves: &[Placement], needle: Placement) -> (r: Option<usize>)
    ensures
        match r {
            Some(j) => moves@.index_of_first(needle) == Some(j as int),
            None => !moves@.contains(needle),
        },
{
    let mut j: usize = 0;
    while j < moves.len()
        invariant
            j <= moves@.len(),
            forall|k: int| 0 <= k < j ==> moves@[k] != needle,
        decreases moves@.len() - j,
    {
        if moves[j] == needle {
            proof {
                moves@.index_of_first_ensures(needle);
            }
            return Some(j);
        }
        j = j + 1;
    }
    None
}

/// If every placement of the query occurs in the move list, with its exact
/// color and point, returns the index of the latest such move; otherwise
/// nothing matches.
pub fn match_game(position: &[Placement], moves: &[Placement]) -> (r: Option<usize>)
    ensures
        r is Some <==> all_contained(position@, moves@),
        match r {
            Some(l) => {
                &&& l == match_last_index(position@, moves@)
                &&& l == 0 || l < moves@.len()
                &&& forall|i: int|
                    0 <= i < position@.len() ==> exists|j: int|
                        0 <= j <= l && j < moves@.len() && moves@[j] == #[trigger] position@[i]
            },
            None => true,
        },
{
    let mut last: usize = 0;
    let mut i: usize = 0;
    while i < position.len()
        invariant
            i <= position@.len(),
            last == match_last_index(position@.subrange(0, i as int), moves@),
            last == 0 || last < moves@.len(),
            all_contained(position@.subrange(0, i as int), moves@),
            forall|ii: int|
                0 <= ii < i ==> exists|j: int|
                    0 <= j <= last && j < moves@.len() && moves@[j] == #[trigger] position@[ii],
        decreases position@.len() - i,
    {
        let ghost pre = position@.subrange(0, i as int);
        let ghost post = position@.subrange(0, i as int + 1);
        proof {
            assert(post.drop_last() =~= pre);
            assert(post.last() == position@[i as int]);
        }
        match index_of_placement(moves, position[i]) {
            Some(j) => {
                proof {
                    moves@.index_of_first_ensures(position@[i as int]);
                }
                if j > last {
                    last = j;
                }
            },
            None => {
                return None;
            },
        }
        i = i + 1;
        proof {
            assert(position@.subrange(0, i as int) =~= post);
        }
    }
    proof {
        assert(position@.subrange(0, position@.len() as int) =~= position@);
    }
    Some(last)
}

/// True when no move of the list lands on any of the given empty points.
pub fn check_empty(empty: &[Point], moves: &[Placement]) -> (b: bool)
    ensures
        b <==> forall|i: int| 0 <= i < moves@.len() ==> !empty@.contains(#[trigger] moves@[i].point),
{
    let mut i: usize = 0;
    while i < moves.len()
        invariant
            i <= moves@.len(),
            forall|k: int| 0 <= k < i ==> !empty@.contains(#[trigger] moves@[k].point),
        decreases moves@.len() - i,
    {
        let mut j: usize = 0;
        while j < empty.len()
            invariant
                i < moves@.len(),
                j <= empty@.len(),
                forall|k: int| 0 <= k < j ==> empty@[k] != moves@[i as int].point,
            decreases empty@.len() - j,
        {
            if empty[j] == moves[i].point {
                return false;
            }
            j = j + 1;
        }
        i = i + 1;
    }
    true
}

/// Membership in the clipped Chebyshev window of a given radius around a
/// center, the center itself excluded.
pub open spec fn in_window(q: Point, c: Point, range: u8) -> bool {
    &&& in_bounds(q)
    &&& q != c
    &&& c.x - range <= q.x <= c.x + range
    &&& c.y - range <= q.y <= c.y + range
}

spec fn lex_before(q: Point, x: int, y: int) -> bool {
    q.x < x || (q.x == x && q.y < y)
}

/// All board points within the given Chebyshev radius of a point, the point
/// itself excluded, without duplicates.
pub fn get_surrounding_points(point: &Point, range: u8) -> (r: Vec<Point>)
    requires
        in_bounds(*point),
    ensures
        forall|q: Point| r@.contains(q) <==> in_window(q, *point, range),
        forall|i: int, j: int| 0 <= i < j < r@.len() ==> r@[i] != r@[j],
{
    let px = *point;
    let xlo: u8 = if px.x > range {
        px.x - range
    } else {
        0
    };
    let xhi: u8 = if px.x as u16 + range as u16 >= BOARD_SIZE as u16 - 1 {
        BOARD_SIZE - 1
    } else {
        px.x + range
    };
    let ylo: u8 = if px.y > range {
        px.y - range
    } else {
        0
    };
    let yhi: u8 = if px.y as u16 + range as u16 >= BOARD_SIZE as u16 - 1 {
        BOARD_SIZE - 1
    } else {
        px.y + range
    };
    let mut r: Vec<Point> = Vec::new();
    let mut x: u8 = xlo;
    while x <= xhi
        invariant
            in_bounds(px),
            xlo <= x <= xhi + 1,
            xhi < BOARD_SIZE,
            yhi < BOARD_SIZE,
            xlo == if px.x > range { px.x - range } else { 0 },
            xhi == if px.x + range >= BOARD_SIZE - 1 { BOARD_SIZE - 1 } else { px.x + range },
            ylo == if px.y > range { px.y - range } else { 0 },
            yhi == if px.y + range >= BOARD_SIZE - 1 { BOARD_SIZE - 1 } else { px.y + range },
            forall|q: Point|
                r@.contains(q) <==> in_window(q, px, range) && lex_before(q, x as int, ylo as int),
            forall|i: int, j: int| 0 <= i < j < r@.len() ==> r@[i] != r@[j],
        decreases xhi + 1 - x,
    {
        let mut y: u8 = ylo;
        while y <= yhi
            invariant
                in_bounds(px),
                xlo <= x <= xhi,
                ylo <= y <= yhi + 1,
                xhi < BOARD_SIZE,
                yhi < BOARD_SIZE,
                xlo == if px.x > range { px.x - range } else { 0 },
                xhi == if px.x + range >= BOARD_SIZE - 1 { BOARD_SIZE - 1 } else { px.x + range },
                ylo == if px.y > range { px.y - range } else { 0 },
                yhi == if px.y + range >= BOARD_SIZE - 1 { BOARD_SIZE - 1 } else { px.y + range },
                forall|q: Point|
                    r@.contains(q) <==> in_window(q, px, range) && lex_before(
                        q,
                        x as int,
                        y as int,
                    ),
                forall|i: int, j: int| 0 <= i < j < r@.len() ==> r@[i] != r@[j],
            decreases yhi + 1 - y,
        {
            if x != px.x || y != px.y {
                let q = Point { x, y };
                let ghost prev = r@;
                proof {
                    assert(!r@.contains(q));
                    assert(in_window(q, px, range));
                }
                r.push(q);
                proof {
                    broadcast use vstd::seq_lib::lemma_seq_contains_after_push;

                    assert(r@ == prev.push(q));
                    assert(forall|p: Point| #[trigger]
                        r@.contains(p) <==> (in_window(p, px, range) && lex_before(
                            p,
                            x as int,
                            y as int,
                        )) || p == q);
                }
            }
            y = y + 1;
        }
        x = x + 1;
        proof {
            assert(forall|q: Point|
                (in_window(q, px, range) && lex_before(q, x as int, ylo as int))
                    <==> (in_window(q, px, range) && lex_before(q, x - 1 as int, yhi + 1 as int)));
        }
    }
    proof {
        assert(forall|q: Point|
            in_window(q, px, range) ==> lex_before(q, x as int, ylo as int));
    }
    r
}

pub open spec fn on_middle_line(p: Point) -> bool {
    p.x == BOARD_SIZE / 2 || p.y == BOARD_SIZE / 2
}

pub open spec fn quadrant_of(p: Point) -> int {
    (if p.x < BOARD_SIZE / 2 {
        0int
    } else {
        1int
    }) + (if p.y < BOARD_SIZE / 2 {
        0int
    } else {
        2int
    })
}

/// An empty position counts as lying within one quadrant; otherwise every
/// placement must avoid the two middle lines and share a single open quadrant.
pub open spec fn within_one_quadrant(s: Seq<Placement>) -> bool {
    &&& forall|i: int| 0 <= i < s.len() ==> !on_middle_line(#[trigger] s[i].point)
    &&& forall|i: int, j: int|
        0 <= i < s.len() && 0 <= j < s.len() ==> quadrant_of(#[trigger] s[i].point) == quadrant_of(
            #[trigger] s[j].point,
        )
}

/// Decides whether a position lies strictly inside one open quadrant.
pub fn check_within_one_quadrant(position: &[Placement]) -> (b: bool)
    ensures
        b == within_one_quadrant(position@),
{
    if position.len() == 0 {
        return true;
    }
    let mid = BOARD_SIZE / 2;
    let first = position[0];
    if first.point.x == mid || first.point.y == mid {
        return false;
    }
    let qx = first.point.x < mid;
    let qy = first.point.y < mid;
    let mut i: usize = 1;
    while i < position.len()
        invariant
            1 <= i <= position@.len(),
            mid == BOARD_SIZE / 2,
            first == position@[0],
            !on_middle_line(first.point),
            qx == (first.point.x < mid),
            qy == (first.point.y < mid),
            forall|k: int| 0 <= k < i ==> !on_middle_line(#[trigger] position@[k].point),
            forall|k: int|
                0 <= k < i ==> quadrant_of(#[trigger] position@[k].point) == quadrant_of(
                    first.point,
                ),
        decreases position@.len() - i,
    {
        let p = position[i];
        if p.point.x == mid || p.point.y == mid {
            return false;
        }
        if (p.point.x < mid) != qx || (p.point.y < mid) != qy {
            return false;
        }
        i = i + 1;
    }
    true
}

/// Every placement of a fully matched position occurs within the move
/// prefix that ends at the reported last matched move: the matched
/// position is a subset of the moves played up to and including it.
pub proof fn lemma_match_within_prefix(position: Seq<Placement>, moves: Seq<Placement>)
    requires
        all_contained(position, moves),
    ensures
        forall|i: int|
            0 <= i < position.len() ==> exists|j: int|
                0 <= j <= match_last_index(position, moves) && j < moves.len() && moves[j]
                    == #[trigger] position[i],
    decreases position.len(),
{
    if position.len() > 0 {
        let d = position.drop_last();
        assert(all_contained(d, moves)) by {
            assert(forall|i: int| 0 <= i < d.len() ==> d[i] == #[trigger] position[i]);
        }
        lemma_match_within_prefix(d, moves);
        let prev = match_last_index(d, moves);
        moves.index_of_first_ensures(position.last());
        assert forall|i: int| 0 <= i < position.len() implies exists|j: int|
            0 <= j <= match_last_index(position, moves) && j < moves.len() && moves[j]
                == #[trigger] position[i] by {
            if i < position.len() - 1 {
                assert(position[i] == d[i]);
                let j = choose|j: int|
                    0 <= j <= prev && j < moves.len() && moves[j] == #[trigger] d[i];
                assert(0 <= j <= match_last_index(position, moves) && j < moves.len() && moves[j]
                    == position[i]);
            } else {
                assert(moves.contains(position.last()));
                let j = moves.index_of_first(position.last()).unwrap();
                assert(0 <= j <= match_last_index(position, moves) && j < moves.len() && moves[j]
                    == position[i]);
            }
        }
    }
}

/// A quarter turn and the turn that undoes it compose to the identity,
/// and the mirror and half turn are involutions.
pub proof fn lemma_transform_involutions(s: Seq<Placement>)
    requires
        valid_position(s),
    ensures
        mirrored_seq(mirrored_seq(s)) == s,
        rotated_seq(Rotation::Degrees180, rotated_seq(Rotation::Degrees180, s)) == s,
        rotated_seq(Rotation::Degrees90, rotated_seq(Rotation::Degrees270, s)) == s,
        rotated_seq(Rotation::Degrees270, rotated_seq(Rotation::Degrees90, s)) == s,
        switched_seq(switched_seq(s)) == s,
{
    assert(mirrored_seq(mirrored_seq(s)) =~= s);
    assert(rotated_seq(Rotation::Degrees180, rotated_seq(Rotation::Degrees180, s)) =~= s);
    assert(rotated_seq(Rotation::Degrees90, rotated_seq(Rotation::Degrees270, s)) =~= s);
    assert(rotated_seq(Rotation::Degrees270, rotated_seq(Rotation::Degrees90, s)) =~= s);
    assert(switched_seq(switched_seq(s)) =~= s);
}

} // verus!
