//! The incremental board engine: applies one move at a time, maintaining
//! the group list and resolving opponent captures and suicide self-capture.
use crate::board::{valid_position, Color, Placement, Point, BOARD_SIZE};
use vstd::prelude::*;

verus! {

/// What sits next to a point in one orthogonal direction.
#[derive(Debug, Clone, Copy, PartialEq, Eq, Structural)]
pub enum Neighbor {
    Stone(Placement),
    Empty(Point),
    Edge,
}

/// The four orthogonal directions, in the fixed scan order up, down,
/// right, left.
pub open spec fn nb_dx(d: int) -> int {
    if d == 2 {
        1
    } else if d == 3 {
        -1
    } else {
        0
    }
}

pub open spec fn nb_dy(d: int) -> int {
    if d == 0 {
        1
    } else if d == 1 {
        -1
    } else {
        0
    }
}

pub open spec fn nb_in_bounds(p: Point, d: int) -> bool {
    &&& 0 <= p.x + nb_dx(d) < BOARD_SIZE
    &&& 0 <= p.y + nb_dy(d) < BOARD_SIZE
}

pub open spec fn nb_point(p: Point, d: int) -> Point {
    Point { x: (p.x + nb_dx(d)) as u8, y: (p.y + nb_dy(d)) as u8 }
}

/// The first placement of a position that sits on a given point.
pub open spec fn find_at(position: Seq<Placement>, q: Point) -> Option<Placement>
    decreases position.len(),
{
    if position.len() == 0 {
        None
    } else if position[0].point == q {
        Some(position[0])
    } else {
        find_at(position.drop_first(), q)
    }
}

pub open spec fn has_stone_at(position: Seq<Placement>, q: Point) -> bool {
    find_at(position, q) is Some
}

proof fn lemma_find_at_index(position: Seq<Placement>, q: Point, i: int)
    requires
        0 <= i < position.len(),
        position[i].point == q,
        forall|k: int| 0 <= k < i ==> (#[trigger] position[k]).point != q,
    ensures
        find_at(position, q) == Some(position[i]),
    decreases i,
{
    if i > 0 {
        let d = position.drop_first();
        assert(d =~= position.subrange(1, position.len() as int));
        lemma_find_at_index(d, q, i - 1);
    }
}

proof fn lemma_find_at_none(position: Seq<Placement>, q: Point)
    requires
        forall|k: int| 0 <= k < position.len() ==> (#[trigger] position[k]).point != q,
    ensures
        find_at(position, q) is None,
    decreases position.len(),
{
    if position.len() > 0 {
        let d = position.drop_first();
        assert(d =~= position.subrange(1, position.len() as int));
        lemma_find_at_none(d, q);
    }
}

/// Finds the first stone on a given point, scanning from the front.
pub fn stone_at(position: &[Placement], q: Point) -> (r: Option<Placement>)
    ensures
        r == find_at(position@, q),
{
    let mut i: usize = 0;
    while i < position.len()
        invariant
            i <= position@.len(),
            forall|k: int| 0 <= k < i ==> (#[trigger] position@[k]).point != q,
        decreases position@.len() - i,
    {
        if position[i].point == q {
            proof {
                lemma_find_at_index(position@, q, i as int);
            }
            return Some(position[i]);
        }
        i = i + 1;
    }
    proof {
        lemma_find_at_none(position@, q);
    }
    None
}

/// The in-bounds neighbor of a point in direction d, if any; total over
/// all byte coordinates.
pub fn neighbor_point(p: Point, d: usize) -> (r: Option<Point>)
    requires
        d < 4,
    ensures
        r is Some <==> nb_in_bounds(p, d as int),
        r is Some ==> r.unwrap() == nb_point(p, d as int),
{
    if d == 0 {
        if p.x < BOARD_SIZE && p.y < BOARD_SIZE - 1 {
            Some(Point { x: p.x, y: p.y + 1 })
        } else {
            None
        }
    } else if d == 1 {
        if p.x < BOARD_SIZE && p.y >= 1 && p.y < BOARD_SIZE + 1 {
            Some(Point { x: p.x, y: p.y - 1 })
        } else {
            None
        }
    } else if d == 2 {
        if p.x < BOARD_SIZE - 1 && p.y < BOARD_SIZE {
            Some(Point { x: p.x + 1, y: p.y })
        } else {
            None
        }
    } else {
        if p.x >= 1 && p.x < BOARD_SIZE + 1 && p.y < BOARD_SIZE {
            Some(Point { x: p.x - 1, y: p.y })
        } else {
            None
        }
    }
}

/// What the four orthogonal neighbors of a point hold: a stone, an empty
/// point, or the board edge. Note that the Empty tag carries the queried
/// center point, not the neighbor point; nothing reads its payload.
pub open spec fn spec_neighbors(position: Seq<Placement>, p: Point) -> Seq<Neighbor> {
    Seq::new(
        4,
        |d: int|
            if !nb_in_bounds(p, d) {
                Neighbor::Edge
            } else {
                match find_at(position, nb_point(p, d)) {
                    Some(pl) => Neighbor::Stone(pl),
                    None => Neighbor::Empty(p),
                }
            },
    )
}

/// Reports the four orthogonal neighbors of a point, in the fixed scan
/// order up, down, right, left.
pub fn get_neighbors(point: &Point, position: &[Placement]) -> (r: [Neighbor; 4])
    ensures
        r@ == spec_neighbors(position@, *point),
{
    let n0 = neighbor_entry(point, position, 0);
    let n1 = neighbor_entry(point, position, 1);
    let n2 = neighbor_entry(point, position, 2);
    let n3 = neighbor_entry(point, position, 3);
    let r = [n0, n1, n2, n3];
    proof {
        assert(r@ =~= spec_neighbors(position@, *point));
    }
    r
}

fn neighbor_entry(point: &Point, position: &[Placement], d: usize) -> (r: Neighbor)
    requires
        d < 4,
    ensures
        r == spec_neighbors(position@, *point)[d as int],
{
    match neighbor_point(*point, d) {
        Some(q) => {
            match stone_at(position, q) {
                Some(pl) => Neighbor::Stone(pl),
                None => Neighbor::Empty(*point),
            }
        },
        None => Neighbor::Edge,
    }
}

/// A group has no liberty: every in-bounds neighbor of every stone is
/// occupied.
pub open spec fn group_out_of_liberties(group: Seq<Placement>, position: Seq<Placement>) -> bool {
    forall|i: int, d: int|
        0 <= i < group.len() && 0 <= d < 4 && nb_in_bounds(group[i].point, d) ==> has_stone_at(
            position,
            #[trigger] nb_point(group[i].point, d),
        )
}

/// Decides whether a group is out of liberties on the given position.
pub fn out_of_liberties_on(group: &[Placement], position: &[Placement]) -> (r: bool)
    ensures
        r == group_out_of_liberties(group@, position@),
{
    let mut i: usize = 0;
    while i < group.len()
        invariant
            i <= group@.len(),
            forall|k: int, d: int|
                0 <= k < i && 0 <= d < 4 && nb_in_bounds(group@[k].point, d) ==> has_stone_at(
                    position@,
                    #[trigger] nb_point(group@[k].point, d),
                ),
        decreases group@.len() - i,
    {
        let p = group[i];
        let mut d: usize = 0;
        while d < 4
            invariant
                i < group@.len(),
                p == group@[i as int],
                d <= 4,
                forall|e: int|
                    0 <= e < d && nb_in_bounds(p.point, e) ==> has_stone_at(
                        position@,
                        #[trigger] nb_point(p.point, e),
                    ),
            decreases 4 - d,
        {
            match neighbor_point(p.point, d) {
                Some(q) => {
                    match stone_at(position, q) {
                        Some(_) => {},
                        None => {
                            assert(!group_out_of_liberties(group@, position@)) by {
                                assert(nb_in_bounds(group@[i as int].point, d as int)
                                    && !has_stone_at(
                                    position@,
                                    nb_point(group@[i as int].point, d as int),
                                ));
                            }
                            return false;
                        },
                    }
                },
                None => {},
            }
            d = d + 1;
        }
        i = i + 1;
    }
    true
}

/// The neighbor points of the move that hold a stone of the given side
/// (the mover's own color or the opponent's), among the first d
/// directions of the fixed scan order.
pub open spec fn neighbor_stone_points(
    position: Seq<Placement>,
    m: Placement,
    same: bool,
    d: int,
) -> Seq<Point>
    decreases d,
{
    if d <= 0 {
        Seq::empty()
    } else {
        let rest = neighbor_stone_points(position, m, same, d - 1);
        if nb_in_bounds(m.point, d - 1) {
            match find_at(position, nb_point(m.point, d - 1)) {
                Some(pl) => if (pl.color == m.color) == same {
                    rest.push(nb_point(m.point, d - 1))
                } else {
                    rest
                },
                None => rest,
            }
        } else {
            rest
        }
    }
}

/// The index of the first group that holds a stone on the given point.
pub open spec fn group_at(groups: Seq<Seq<Placement>>, q: Point) -> Option<int>
    decreases groups.len(),
{
    if groups.len() == 0 {
        None
    } else if has_stone_at(groups[0], q) {
        Some(0int)
    } else {
        match group_at(groups.drop_first(), q) {
            Some(i) => Some(i + 1),
            None => None,
        }
    }
}

/// The distinct group indices of the given points, in first-touch order.
pub open spec fn distinct_group_indices(groups: Seq<Seq<Placement>>, pts: Seq<Point>) -> Seq<int>
    decreases pts.len(),
{
    if pts.len() == 0 {
        Seq::empty()
    } else {
        let rest = distinct_group_indices(groups, pts.drop_last());
        match group_at(groups, pts.last()) {
            Some(gi) => if rest.contains(gi) {
                rest
            } else {
                rest.push(gi)
            },
            None => rest,
        }
    }
}

/// The position with every stone of a group removed, order preserved.
pub open spec fn remove_stones(position: Seq<Placement>, group: Seq<Placement>) -> Seq<Placement>
    decreases position.len(),
{
    if position.len() == 0 {
        Seq::empty()
    } else {
        let rest = remove_stones(position.drop_last(), group);
        if group.contains(position.last()) {
            rest
        } else {
            rest.push(position.last())
        }
    }
}

/// The stones of the chosen groups, concatenated in the given order.
pub open spec fn concat_groups(groups: Seq<Seq<Placement>>, idxs: Seq<int>) -> Seq<Placement>
    decreases idxs.len(),
{
    if idxs.len() == 0 {
        Seq::empty()
    } else {
        let rest = concat_groups(groups, idxs.drop_last());
        let gi = idxs.last();
        if 0 <= gi < groups.len() {
            rest + groups[gi]
        } else {
            rest
        }
    }
}

/// Scans candidate groups in order, capturing each that is out of
/// liberties on the evolving position; yields the final position, the
/// captured indices, and the captured groups in capture order.
pub open spec fn capture_fold(
    position: Seq<Placement>,
    groups: Seq<Seq<Placement>>,
    idxs: Seq<int>,
) -> (Seq<Placement>, Seq<int>, Seq<Seq<Placement>>)
    decreases idxs.len(),
{
    if idxs.len() == 0 {
        (position, Seq::empty(), Seq::empty())
    } else {
        let gi = idxs[0];
        let g = if 0 <= gi < groups.len() {
            groups[gi]
        } else {
            Seq::empty()
        };
        if group_out_of_liberties(g, position) {
            let (p, ci, cg) = capture_fold(remove_stones(position, g), groups, idxs.drop_first());
            (p, seq![gi] + ci, seq![g] + cg)
        } else {
            capture_fold(position, groups, idxs.drop_first())
        }
    }
}

/// The groups whose indices are not excluded, order preserved.
pub open spec fn groups_excluding(groups: Seq<Seq<Placement>>, excl: Seq<int>) -> Seq<
    Seq<Placement>,
>
    decreases groups.len(),
{
    if groups.len() == 0 {
        Seq::empty()
    } else {
        let rest = groups_excluding(groups.drop_last(), excl);
        if excl.contains(groups.len() - 1) {
            rest
        } else {
            rest.push(groups.last())
        }
    }
}

/// One move applied to a board state: the new position, the new group
/// list, the capture-log entries this move appends, and the removed
/// stones in removal order.
pub open spec fn board_step(position: Seq<Placement>, groups: Seq<Seq<Placement>>, m: Placement) -> (
    Seq<Placement>,
    Seq<Seq<Placement>>,
    Seq<Seq<Placement>>,
    Seq<Placement>,
) {
    if has_stone_at(position, m.point) {
        (position, groups, Seq::empty(), Seq::empty())
    } else {
        let pos1 = position.push(m);
        let other_idxs = distinct_group_indices(
            groups,
            neighbor_stone_points(pos1, m, false, 4),
        );
        let (pos2, cap_idxs, cap_groups) = capture_fold(pos1, groups, other_idxs);
        let same_idxs = distinct_group_indices(groups, neighbor_stone_points(pos1, m, true, 4));
        let merged = concat_groups(groups, same_idxs).push(m);
        let kept = groups_excluding(groups, cap_idxs + same_idxs);
        if group_out_of_liberties(merged, pos2) {
            (
                remove_stones(pos2, merged),
                kept,
                cap_groups.push(merged),
                concat_seqs(cap_groups) + merged,
            )
        } else {
            (pos2, kept.push(merged), cap_groups, concat_seqs(cap_groups))
        }
    }
}

/// All the stones of a list of groups, in order.
pub open spec fn concat_seqs(gs: Seq<Seq<Placement>>) -> Seq<Placement>
    decreases gs.len(),
{
    if gs.len() == 0 {
        Seq::empty()
    } else {
        concat_seqs(gs.drop_last()) + gs.last()
    }
}

/// The mathematical view of a list of stone vectors.
pub open spec fn vecs_view(s: Seq<Vec<Placement>>) -> Seq<Seq<Placement>> {
    s.map_values(|v: Vec<Placement>| v@)
}

/// A replayable board: the stones on it, the groups they form, and the
/// log of every capture in the order it happened.
#[derive(Debug, Clone, PartialEq, Eq)]
pub struct GoBoard {
    pub position: Vec<Placement>,
    pub captures: Vec<Vec<Placement>>,
    pub groups: Vec<Vec<Placement>>,
}

/// A view of a vector of group indices as mathematical integers.
pub open spec fn idxs_view(s: Seq<usize>) -> Seq<int> {
    s.map_values(|u: usize| u as int)
}

fn contains_placement(group: &[Placement], p: Placement) -> (b: bool)
    ensures
        b == group@.contains(p),
{
    let mut i: usize = 0;
    while i < group.len()
        invariant
            i <= group@.len(),
            forall|k: int| 0 <= k < i ==> group@[k] != p,
        decreases group@.len() - i,
    {
        if group[i] == p {
            return true;
        }
        i = i + 1;
    }
    false
}

fn contains_index(idxs: &Vec<usize>, v: usize) -> (b: bool)
    ensures
        b == idxs_view(idxs@).contains(v as int),
{
    let mut i: usize = 0;
    while i < idxs.len()
        invariant
            i <= idxs@.len(),
            forall|k: int| 0 <= k < i ==> idxs@[k] != v,
        decreases idxs@.len() - i,
    {
        if idxs[i] == v {
            assert(idxs_view(idxs@)[i as int] == v as int);
            return true;
        }
        i = i + 1;
    }
    assert forall|k: int| 0 <= k < idxs_view(idxs@).len() implies idxs_view(idxs@)[k]
        != v as int by {
        assert(idxs@[k] != v);
    }
    false
}

pub fn copy_stones(g: &[Placement]) -> (r: Vec<Placement>)
    ensures
        r@ == g@,
{
    let mut r: Vec<Placement> = Vec::new();
    let mut i: usize = 0;
    while i < g.len()
        invariant
            i <= g@.len(),
            r@ =~= g@.subrange(0, i as int),
        decreases g@.len() - i,
    {
        r.push(g[i]);
        i = i + 1;
    }
    proof {
        assert(r@ =~= g@);
    }
    r
}

/// Removes every stone of a group from a position, keeping order.
pub(crate) fn remove_stones_vec(position: &Vec<Placement>, group: &[Placement]) -> (r: Vec<Placement>)
    ensures
        r@ == remove_stones(position@, group@),
{
    let mut r: Vec<Placement> = Vec::new();
    let mut i: usize = 0;
    while i < position.len()
        invariant
            i <= position@.len(),
            r@ == remove_stones(position@.subrange(0, i as int), group@),
        decreases position@.len() - i,
    {
        proof {
            assert(position@.subrange(0, i + 1).drop_last() =~= position@.subrange(0, i as int));
            assert(position@.subrange(0, i + 1).last() == position@[i as int]);
        }
        if !contains_placement(group, position[i]) {
            r.push(position[i]);
        }
        i = i + 1;
    }
    proof {
        assert(position@.subrange(0, position@.len() as int) =~= position@);
    }
    r
}

proof fn lemma_group_at_index(gs: Seq<Seq<Placement>>, q: Point, i: int)
    requires
        0 <= i < gs.len(),
        has_stone_at(gs[i], q),
        forall|k: int| 0 <= k < i ==> !has_stone_at(#[trigger] gs[k], q),
    ensures
        group_at(gs, q) == Some(i),
    decreases i,
{
    if i > 0 {
        let d = gs.drop_first();
        assert(d =~= gs.subrange(1, gs.len() as int));
        lemma_group_at_index(d, q, i - 1);
    }
}

proof fn lemma_group_at_none(gs: Seq<Seq<Placement>>, q: Point)
    requires
        forall|k: int| 0 <= k < gs.len() ==> !has_stone_at(#[trigger] gs[k], q),
    ensures
        group_at(gs, q) is None,
    decreases gs.len(),
{
    if gs.len() > 0 {
        let d = gs.drop_first();
        assert(d =~= gs.subrange(1, gs.len() as int));
        lemma_group_at_none(d, q);
    }
}

/// Any group index this scan yields is in range.
proof fn lemma_group_at_bound(gs: Seq<Seq<Placement>>, q: Point)
    ensures
        match group_at(gs, q) {
            Some(i) => 0 <= i < gs.len(),
            None => true,
        },
    decreases gs.len(),
{
    if gs.len() > 0 && !has_stone_at(gs[0], q) {
        lemma_group_at_bound(gs.drop_first(), q);
    }
}

/// Finds the first group that holds a stone on the given point.
fn find_group_index(groups: &Vec<Vec<Placement>>, q: Point) -> (r: Option<usize>)
    ensures
        match r {
            Some(i) => group_at(vecs_view(groups@), q) == Some(i as int) && i < groups@.len(),
            None => group_at(vecs_view(groups@), q) is None,
        },
{
    let mut i: usize = 0;
    while i < groups.len()
        invariant
            i <= groups@.len(),
            forall|k: int| 0 <= k < i ==> !has_stone_at(#[trigger] vecs_view(groups@)[k], q),
        decreases groups@.len() - i,
    {
        if stone_at(groups[i].as_slice(), q).is_some() {
            proof {
                assert(vecs_view(groups@)[i as int] == groups@[i as int]@);
                lemma_group_at_index(vecs_view(groups@), q, i as int);
            }
            return Some(i);
        }
        proof {
            assert(vecs_view(groups@)[i as int] == groups@[i as int]@);
        }
        i = i + 1;
    }
    proof {
        lemma_group_at_none(vecs_view(groups@), q);
    }
    None
}

/// The distinct groups of the given points, by index in first-touch order.
fn distinct_indices(groups: &Vec<Vec<Placement>>, pts: &Vec<Point>) -> (r: Vec<usize>)
    ensures
        idxs_view(r@) == distinct_group_indices(vecs_view(groups@), pts@),
        forall|k: int| 0 <= k < r@.len() ==> (#[trigger] r@[k]) < groups@.len(),
{
    let mut r: Vec<usize> = Vec::new();
    let mut i: usize = 0;
    while i < pts.len()
        invariant
            i <= pts@.len(),
            idxs_view(r@) == distinct_group_indices(vecs_view(groups@), pts@.subrange(0, i as int)),
            forall|k: int| 0 <= k < r@.len() ==> (#[trigger] r@[k]) < groups@.len(),
        decreases pts@.len() - i,
    {
        proof {
            assert(pts@.subrange(0, i + 1).drop_last() =~= pts@.subrange(0, i as int));
            assert(pts@.subrange(0, i + 1).last() == pts@[i as int]);
        }
        match find_group_index(groups, pts[i]) {
            Some(gi) => {
                if !contains_index(&r, gi) {
                    let ghost prev = r@;
                    r.push(gi);
                    proof {
                        assert(idxs_view(r@) =~= idxs_view(prev).push(gi as int));
                    }
                }
            },
            None => {},
        }
        i = i + 1;
    }
    proof {
        assert(pts@.subrange(0, pts@.len() as int) =~= pts@);
    }
    r
}

/// An equal stone list.
pub fn copy_group(g: &Vec<Placement>) -> (r: Vec<Placement>)
    ensures
        r@ == g@,
{
    copy_stones(g.as_slice())
}

impl GoBoard {
    /// An empty board.
    pub fn new() -> (b: GoBoard)
        ensures
            b.position@ == Seq::<Placement>::empty(),
            b.captures@ == Seq::<Vec<Placement>>::empty(),
            b.groups@ == Seq::<Vec<Placement>>::empty(),
    {
        GoBoard { position: Vec::new(), captures: Vec::new(), groups: Vec::new() }
    }

    /// Applies one move: a move on an occupied point is ignored; otherwise
    /// adjacent opponent groups without liberties are captured, the move
    /// merges with its own adjacent groups, and a merged group without
    /// liberties removes itself. Returns every stone taken off the board,
    /// opponent captures first.
    #[verifier::rlimit(100)]
    pub fn make_move(&mut self, move_: &Placement) -> (r: Vec<Placement>)
        ensures
            ({
                let step = board_step(
                    old(self).position@,
                    vecs_view(old(self).groups@),
                    *move_,
                );
                &&& final(self).position@ == step.0
                &&& vecs_view(final(self).groups@) == step.1
                &&& vecs_view(final(self).captures@) == vecs_view(old(self).captures@) + step.2
                &&& r@ == step.3
            }),
    {
        let ghost groups0 = vecs_view(self.groups@);
        let ghost caps0 = vecs_view(self.captures@);
        if stone_at(self.position.as_slice(), move_.point).is_some() {
            return Vec::new();
        }
        self.position.push(*move_);
        let ghost pos1 = self.position@;

        // Classify the stones on the four neighbor points.
        let mut same_pts: Vec<Point> = Vec::new();
        let mut other_pts: Vec<Point> = Vec::new();
        let mut d: usize = 0;
        while d < 4
            invariant
                d <= 4,
                self.position@ == pos1,
                self.groups@.len() == groups0.len(),
                same_pts@ == neighbor_stone_points(pos1, *move_, true, d as int),
                other_pts@ == neighbor_stone_points(pos1, *move_, false, d as int),
            decreases 4 - d,
        {
            match neighbor_point(move_.point, d) {
                Some(q) => {
                    match stone_at(self.position.as_slice(), q) {
                        Some(pl) => {
                            if pl.color == move_.color {
                                same_pts.push(q);
                            } else {
                                other_pts.push(q);
                            }
                        },
                        None => {},
                    }
                },
                None => {},
            }
            d = d + 1;
        }

        let ghost oidx = distinct_group_indices(
            groups0,
            neighbor_stone_points(pos1, *move_, false, 4),
        );
        let ghost full = capture_fold(pos1, groups0, oidx);
        let other_idxs = distinct_indices(&self.groups, &other_pts);

        // Capture adjacent opponent groups that are out of liberties.
        let mut out: Vec<Placement> = Vec::new();
        let mut cap_idxs: Vec<usize> = Vec::new();
        let mut t: usize = 0;
        proof {
            assert(oidx.skip(0) =~= oidx);
            assert(vecs_view(self.captures@).subrange(0, caps0.len() as int) =~= caps0);
            assert(vecs_view(self.captures@).skip(caps0.len() as int) =~= Seq::<
                Seq<Placement>,
            >::empty());
            assert(idxs_view(cap_idxs@) + full.1 =~= full.1);
            assert(Seq::<Seq<Placement>>::empty() + full.2 =~= full.2);
        }
        while t < other_idxs.len()
            invariant
                t <= other_idxs@.len(),
                idxs_view(other_idxs@) == oidx,
                forall|k: int|
                    0 <= k < other_idxs@.len() ==> (#[trigger] other_idxs@[k]) < groups0.len(),
                vecs_view(self.groups@) == groups0,
                full == capture_fold(pos1, groups0, oidx),
                caps0.len() <= vecs_view(self.captures@).len(),
                vecs_view(self.captures@).subrange(0, caps0.len() as int) == caps0,
                capture_fold(self.position@, groups0, oidx.skip(t as int)).0 == full.0,
                idxs_view(cap_idxs@) + capture_fold(
                    self.position@,
                    groups0,
                    oidx.skip(t as int),
                ).1 == full.1,
                vecs_view(self.captures@).skip(caps0.len() as int) + capture_fold(
                    self.position@,
                    groups0,
                    oidx.skip(t as int),
                ).2 == full.2,
                out@ == concat_seqs(vecs_view(self.captures@).skip(caps0.len() as int)),
            decreases other_idxs@.len() - t,
        {
            let gi = other_idxs[t];
            proof {
                assert(oidx.skip(t as int)[0] == oidx[t as int] == gi as int);
                assert(oidx.skip(t as int).drop_first() =~= oidx.skip(t as int + 1));
                assert(groups0[gi as int] == self.groups@[gi as int]@);
            }
            if out_of_liberties_on(self.groups[gi].as_slice(), self.position.as_slice()) {
                let ghost cg_before = vecs_view(self.captures@).skip(caps0.len() as int);
                let ghost fold_t = capture_fold(self.position@, groups0, oidx.skip(t as int));
                let g = copy_stones(self.groups[gi].as_slice());
                let np = remove_stones_vec(&self.position, g.as_slice());
                self.position = np;
                let mut j: usize = 0;
                while j < g.len()
                    invariant
                        j <= g@.len(),
                        out@ == concat_seqs(cg_before) + g@.subrange(0, j as int),
                    decreases g@.len() - j,
                {
                    out.push(g[j]);
                    proof {
                        assert(g@.subrange(0, j + 1) =~= g@.subrange(0, j as int).push(
                            g@[j as int],
                        ));
                    }
                    j = j + 1;
                }
                cap_idxs.push(gi);
                self.captures.push(g);
                proof {
                    let cg_now = vecs_view(self.captures@).skip(caps0.len() as int);
                    assert(cg_now =~= cg_before.push(groups0[gi as int]));
                    assert(vecs_view(self.captures@).subrange(0, caps0.len() as int) =~= caps0);
                    assert(cg_now.drop_last() =~= cg_before);
                    assert(concat_seqs(cg_now) == concat_seqs(cg_before) + groups0[gi as int]);
                    assert(g@.subrange(0, g@.len() as int) =~= groups0[gi as int]);
                    let fold_n = capture_fold(self.position@, groups0, oidx.skip(t as int + 1));
                    assert(fold_t.1 =~= seq![gi as int] + fold_n.1);
                    assert(fold_t.2 =~= seq![groups0[gi as int]] + fold_n.2);
                    assert(idxs_view(cap_idxs@) =~= idxs_view(cap_idxs@.drop_last()).push(
                        gi as int,
                    ));
                    assert(idxs_view(cap_idxs@) + fold_n.1 =~= idxs_view(cap_idxs@.drop_last())
                        + fold_t.1);
                    assert(cg_now + fold_n.2 =~= cg_before + fold_t.2);
                }
            } else {
                proof {
                    assert(capture_fold(self.position@, groups0, oidx.skip(t as int))
                        == capture_fold(self.position@, groups0, oidx.skip(t as int + 1)));
                }
            }
            t = t + 1;
        }
        proof {
            assert(oidx.skip(oidx.len() as int) =~= Seq::<int>::empty());
            assert(full.0 == self.position@);
            assert(idxs_view(cap_idxs@) + Seq::<int>::empty() =~= idxs_view(cap_idxs@));
            assert(full.1 == idxs_view(cap_idxs@));
            let cg = vecs_view(self.captures@).skip(caps0.len() as int);
            assert(cg + Seq::<Seq<Placement>>::empty() =~= cg);
            assert(full.2 == cg);
        }

        // Merge the move with its own adjacent groups.
        let ghost sidx = distinct_group_indices(groups0, neighbor_stone_points(pos1, *move_, true, 4));
        let same_idxs = distinct_indices(&self.groups, &same_pts);
        let mut merged: Vec<Placement> = Vec::new();
        let mut u: usize = 0;
        while u < same_idxs.len()
            invariant
                u <= same_idxs@.len(),
                idxs_view(same_idxs@) == sidx,
                forall|k: int|
                    0 <= k < same_idxs@.len() ==> (#[trigger] same_idxs@[k]) < groups0.len(),
                vecs_view(self.groups@) == groups0,
                merged@ == concat_groups(groups0, sidx.subrange(0, u as int)),
            decreases same_idxs@.len() - u,
        {
            let gi = same_idxs[u];
            proof {
                assert(sidx.subrange(0, u as int + 1).drop_last() =~= sidx.subrange(0, u as int));
                assert(sidx.subrange(0, u as int + 1).last() == sidx[u as int] == gi as int);
                assert(groups0[gi as int] == self.groups@[gi as int]@);
            }
            let ghost merged_before = merged@;
            let grp = &self.groups[gi];
            let mut j: usize = 0;
            while j < grp.len()
                invariant
                    j <= grp@.len(),
                    merged@ == merged_before + grp@.subrange(0, j as int),
                decreases grp@.len() - j,
            {
                merged.push(grp[j]);
                proof {
                    assert(grp@.subrange(0, j + 1) =~= grp@.subrange(0, j as int).push(
                        grp@[j as int],
                    ));
                }
                j = j + 1;
            }
            proof {
                assert(grp@.subrange(0, grp@.len() as int) =~= grp@);
            }
            u = u + 1;
        }
        proof {
            assert(sidx.subrange(0, sidx.len() as int) =~= sidx);
        }
        merged.push(*move_);

        // Rebuild the group list without the captured and merged groups.
        let mut excl: Vec<usize> = Vec::new();
        let mut e: usize = 0;
        while e < cap_idxs.len()
            invariant
                e <= cap_idxs@.len(),
                excl@ =~= cap_idxs@.subrange(0, e as int),
            decreases cap_idxs@.len() - e,
        {
            excl.push(cap_idxs[e]);
            e = e + 1;
        }
        proof {
            assert(excl@ =~= cap_idxs@);
        }
        let mut e: usize = 0;
        while e < same_idxs.len()
            invariant
                e <= same_idxs@.len(),
                excl@ =~= cap_idxs@ + same_idxs@.subrange(0, e as int),
            decreases same_idxs@.len() - e,
        {
            excl.push(same_idxs[e]);
            e = e + 1;
        }
        proof {
            assert(excl@ =~= cap_idxs@ + same_idxs@);
            assert(idxs_view(excl@) =~= idxs_view(cap_idxs@) + idxs_view(same_idxs@));
        }
        let mut new_groups: Vec<Vec<Placement>> = Vec::new();
        let mut gi: usize = 0;
        let glen = self.groups.len();
        while gi < glen
            invariant
                gi <= glen,
                glen == self.groups@.len(),
                vecs_view(self.groups@) == groups0,
                vecs_view(new_groups@) == groups_excluding(
                    groups0.subrange(0, gi as int),
                    idxs_view(excl@),
                ),
            decreases glen - gi,
        {
            proof {
                assert(groups0.subrange(0, gi as int + 1).drop_last() =~= groups0.subrange(
                    0,
                    gi as int,
                ));
                assert(groups0.subrange(0, gi as int + 1).last() == groups0[gi as int]);
                assert(groups0[gi as int] == self.groups@[gi as int]@);
            }
            if !contains_index(&excl, gi) {
                let ghost prev = vecs_view(new_groups@);
                new_groups.push(copy_stones(self.groups[gi].as_slice()));
                proof {
                    assert(vecs_view(new_groups@) =~= prev.push(groups0[gi as int]));
                }
            }
            gi = gi + 1;
        }
        proof {
            assert(groups0.subrange(0, groups0.len() as int) =~= groups0);
        }

        // A merged group without liberties removes itself (suicide).
        proof {
            assert(vecs_view(self.captures@) =~= caps0 + vecs_view(self.captures@).skip(
                caps0.len() as int,
            ));
        }
        if out_of_liberties_on(merged.as_slice(), self.position.as_slice()) {
            let ghost cg_before = vecs_view(self.captures@).skip(caps0.len() as int);
            let np = remove_stones_vec(&self.position, merged.as_slice());
            self.position = np;
            let ghost out_before = out@;
            let mut j: usize = 0;
            while j < merged.len()
                invariant
                    j <= merged@.len(),
                    out@ == out_before + merged@.subrange(0, j as int),
                decreases merged@.len() - j,
            {
                out.push(merged[j]);
                proof {
                    assert(merged@.subrange(0, j + 1) =~= merged@.subrange(0, j as int).push(
                        merged@[j as int],
                    ));
                }
                j = j + 1;
            }
            proof {
                assert(merged@.subrange(0, merged@.len() as int) =~= merged@);
            }
            let ghost merged_view = merged@;
            self.captures.push(merged);
            self.groups = new_groups;
            proof {
                assert(vecs_view(self.captures@).subrange(0, caps0.len() as int) =~= caps0);
                assert(vecs_view(self.captures@).skip(caps0.len() as int) =~= cg_before.push(
                    merged_view,
                ));
                assert(vecs_view(self.captures@) =~= caps0 + cg_before.push(merged_view));
            }
            out
        } else {
            let ghost merged_view = merged@;
            let ghost kept = vecs_view(new_groups@);
            new_groups.push(merged);
            self.groups = new_groups;
            proof {
                assert(vecs_view(self.groups@) =~= kept.push(merged_view));
            }
            out
        }
    }
}

} // verus!