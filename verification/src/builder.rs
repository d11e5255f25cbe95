//! The corpus builder's pure core: merging duplicate game records,
//! deduplicating by position symmetry and by players and date, replaying
//! games for their captures, and the date ordering of the final corpus.
use crate::board::{valid_position, Placement};
use crate::codec::{captures_view, CaptureEntry};
use crate::engine::{board_step, vecs_view, GoBoard};
use crate::game::{duplicate_moves, Game};
use crate::meta::{Player, Rank, Rules, SgfDate};
use crate::result::GameResult;
use crate::symmetry::{get_rotated, rotated_seq};
use vstd::prelude::*;

verus! {

/// Merged players: a resolved id beats an unresolved name; of two ids the
/// existing one wins unless it is zero; of two names the nonempty one.
pub open spec fn spec_merge_player(a: Player, b: Player) -> Player {
    match (a, b) {
        (Player::Id(id1, n1), Player::Id(id2, n2)) => Player::Id(
            if id1 > 0 {
                id1
            } else {
                id2
            },
            n1,
        ),
        (Player::Id(id, n), Player::Unknown(u)) => Player::Id(id, n),
        (Player::Unknown(u), Player::Id(id, n)) => Player::Id(id, n),
        (Player::Unknown(n1), Player::Unknown(n2)) => Player::Unknown(
            if n1@.len() > 0 {
                n1
            } else {
                n2
            },
        ),
    }
}

/// Merged results: a known outcome beats an unknown one, and a sized win
/// beats an unsized one.
pub open spec fn spec_merge_result(a: GameResult, b: GameResult) -> GameResult {
    match (a, b) {
        (GameResult::Unknown(x), bb) => bb,
        (aa, GameResult::Unknown(x)) => aa,
        (GameResult::Player(c1, s1, n1), GameResult::Player(c2, s2, n2)) => {
            if s1 is None && s2 is Some {
                GameResult::Player(c2, s2, n2)
            } else {
                GameResult::Player(c1, s1, n1)
            }
        },
        (aa, bb) => aa,
    }
}

/// Merged ranks: professional beats dan beats kyu beats nonempty custom
/// text beats empty text; the incoming record wins ties.
pub open spec fn spec_merge_rank(incoming: Rank, existing: Rank) -> Rank {
    match (incoming, existing) {
        (Rank::Pro(n), e) => Rank::Pro(n),
        (i, Rank::Pro(n)) => Rank::Pro(n),
        (Rank::Dan(n), e) => Rank::Dan(n),
        (i, Rank::Dan(n)) => Rank::Dan(n),
        (Rank::Kyu(n), e) => Rank::Kyu(n),
        (i, Rank::Kyu(n)) => Rank::Kyu(n),
        (Rank::Custom(s1), Rank::Custom(s2)) => if s1@.len() == 0 {
            Rank::Custom(s2)
        } else {
            Rank::Custom(s1)
        },
    }
}

/// Merged free-form text: the nonempty one, the incoming winning ties.
pub open spec fn spec_merge_text(incoming: String, existing: String) -> String {
    if incoming@.len() > 0 {
        incoming
    } else if existing@.len() > 0 {
        existing
    } else {
        incoming
    }
}

/// How precise a date is.
pub open spec fn date_precision(d: SgfDate) -> int {
    match d {
        SgfDate::YearMonthDay(y, m, dd) => 3,
        SgfDate::YearMonth(y, m) => 2,
        SgfDate::Year(y) => 1,
        SgfDate::Custom(s) => 0,
    }
}

/// Merged dates: the more precise one, the incoming winning ties.
pub open spec fn spec_merge_date(incoming: Option<SgfDate>, existing: Option<SgfDate>) -> Option<
    SgfDate,
> {
    match (incoming, existing) {
        (Some(d1), Some(d2)) => if date_precision(d1) >= date_precision(d2) {
            Some(d1)
        } else {
            Some(d2)
        },
        (Some(d1), None) => Some(d1),
        (None, Some(d2)) => Some(d2),
        (None, None) => None,
    }
}

/// How definite a rule set is.
pub open spec fn rules_precision(r: Option<Rules>) -> int {
    match r {
        Some(Rules::Custom(s)) => 1,
        Some(rr) => 2,
        None => 0,
    }
}

/// Merged rule sets: a known rule set beats custom text beats none, the
/// incoming winning ties.
pub open spec fn spec_merge_rules(incoming: Option<Rules>, existing: Option<Rules>) -> Option<
    Rules,
> {
    if rules_precision(incoming) >= rules_precision(existing) {
        incoming
    } else {
        existing
    }
}

/// The whole field-wise merge of a duplicate pair: the incoming record's
/// values win wherever neither side is more informative; the longer move
/// list is kept, the existing capture index always stays.
pub open spec fn spec_merge(existing: Game, incoming: Game) -> Game {
    Game {
        event: spec_merge_text(incoming.event, existing.event),
        round: spec_merge_text(incoming.round, existing.round),
        location: spec_merge_text(incoming.location, existing.location),
        date: spec_merge_date(incoming.date, existing.date),
        player_black: spec_merge_player(existing.player_black, incoming.player_black),
        player_white: spec_merge_player(existing.player_white, incoming.player_white),
        rank_black: spec_merge_rank(incoming.rank_black, existing.rank_black),
        rank_white: spec_merge_rank(incoming.rank_white, existing.rank_white),
        komi: incoming.komi,
        rules: spec_merge_rules(incoming.rules, existing.rules),
        result: spec_merge_result(existing.result, incoming.result),
        moves: if incoming.moves@.len() > existing.moves@.len() {
            incoming.moves
        } else {
            existing.moves
        },
        captures: existing.captures,
    }
}

/// Folds a duplicate record into its kept representative, field by field.
pub fn merge_games(existing_game: &mut Game, new_game: Game)
    ensures
        *final(existing_game) == spec_merge(*old(existing_game), new_game),
{
    let Game {
        event: n_event,
        round: n_round,
        location: n_location,
        date: n_date,
        player_black: n_pb,
        player_white: n_pw,
        rank_black: n_rb,
        rank_white: n_rw,
        komi: n_komi,
        rules: n_rules,
        result: n_result,
        moves: n_moves,
        captures: n_captures,
    } = new_game;

    if n_event.as_str().unicode_len() > 0 {
        existing_game.event = n_event;
    } else if existing_game.event.as_str().unicode_len() > 0 {
    } else {
        existing_game.event = n_event;
    }
    if n_round.as_str().unicode_len() > 0 {
        existing_game.round = n_round;
    } else if existing_game.round.as_str().unicode_len() > 0 {
    } else {
        existing_game.round = n_round;
    }
    if n_location.as_str().unicode_len() > 0 {
        existing_game.location = n_location;
    } else if existing_game.location.as_str().unicode_len() > 0 {
    } else {
        existing_game.location = n_location;
    }

    let new_date_prec: u8 = match &n_date {
        Some(SgfDate::YearMonthDay(_, _, _)) => 3,
        Some(SgfDate::YearMonth(_, _)) => 2,
        Some(SgfDate::Year(_)) => 1,
        Some(SgfDate::Custom(_)) => 0,
        None => 0,
    };
    let old_date_prec: u8 = match &existing_game.date {
        Some(SgfDate::YearMonthDay(_, _, _)) => 3,
        Some(SgfDate::YearMonth(_, _)) => 2,
        Some(SgfDate::Year(_)) => 1,
        Some(SgfDate::Custom(_)) => 0,
        None => 0,
    };
    match (&n_date, &existing_game.date) {
        (Some(_), Some(_)) => {
            if new_date_prec >= old_date_prec {
                existing_game.date = n_date;
            }
        },
        (Some(_), None) => {
            existing_game.date = n_date;
        },
        _ => {},
    }

    let pb_old = existing_game.player_black.duplicate();
    existing_game.player_black = match (pb_old, n_pb) {
        (Player::Id(id1, n1), Player::Id(id2, _n2)) => Player::Id(
            if id1 > 0 {
                id1
            } else {
                id2
            },
            n1,
        ),
        (Player::Id(id, n), Player::Unknown(_)) => Player::Id(id, n),
        (Player::Unknown(_), Player::Id(id, n)) => Player::Id(id, n),
        (Player::Unknown(n1), Player::Unknown(n2)) => {
            if n1.as_str().unicode_len() > 0 {
                Player::Unknown(n1)
            } else {
                Player::Unknown(n2)
            }
        },
    };
    let pw_old = existing_game.player_white.duplicate();
    existing_game.player_white = match (pw_old, n_pw) {
        (Player::Id(id1, n1), Player::Id(id2, _n2)) => Player::Id(
            if id1 > 0 {
                id1
            } else {
                id2
            },
            n1,
        ),
        (Player::Id(id, n), Player::Unknown(_)) => Player::Id(id, n),
        (Player::Unknown(_), Player::Id(id, n)) => Player::Id(id, n),
        (Player::Unknown(n1), Player::Unknown(n2)) => {
            if n1.as_str().unicode_len() > 0 {
                Player::Unknown(n1)
            } else {
                Player::Unknown(n2)
            }
        },
    };

    let rb_old = existing_game.rank_black.duplicate();
    existing_game.rank_black = merge_rank(n_rb, rb_old);
    let rw_old = existing_game.rank_white.duplicate();
    existing_game.rank_white = merge_rank(n_rw, rw_old);

    existing_game.komi = n_komi;

    let new_rules_prec: u8 = match &n_rules {
        Some(Rules::Custom(_)) => 1,
        Some(_) => 2,
        None => 0,
    };
    let old_rules_prec: u8 = match &existing_game.rules {
        Some(Rules::Custom(_)) => 1,
        Some(_) => 2,
        None => 0,
    };
    if new_rules_prec >= old_rules_prec {
        existing_game.rules = n_rules;
    }

    let res_old = existing_game.result.duplicate();
    existing_game.result = match (res_old, n_result) {
        (GameResult::Unknown(_), bb) => bb,
        (aa, GameResult::Unknown(_)) => aa,
        (GameResult::Player(c1, s1, n1), GameResult::Player(c2, s2, n2)) => {
            match (&s1, &s2) {
                (None, Some(_)) => GameResult::Player(c2, s2, n2),
                _ => GameResult::Player(c1, s1, n1),
            }
        },
        (aa, _) => aa,
    };

    if n_moves.len() > existing_game.moves.len() {
        existing_game.moves = n_moves;
    }
}

/// The capture log of a replayed move list from a given board state: for
/// each move, in order, the stones it removed (entries for capturing moves
/// only).
pub open spec fn replay_captures(
    moves: Seq<Placement>,
    i: int,
    position: Seq<Placement>,
    groups: Seq<Seq<Placement>>,
) -> Seq<(int, Seq<Placement>)>
    decreases moves.len() - i,
{
    if i < 0 || i >= moves.len() {
        Seq::empty()
    } else {
        let step = board_step(position, groups, moves[i]);
        let rest = replay_captures(moves, i + 1, step.0, step.1);
        if step.3.len() > 0 {
            seq![(i, step.3)] + rest
        } else {
            rest
        }
    }
}

/// Replays a game through a fresh board and records, for each move, the
/// stones that move captured.
pub fn compute_captures(moves: &Vec<Placement>) -> (r: Vec<CaptureEntry>)
    ensures
        captures_view(r@) == replay_captures(moves@, 0, Seq::empty(), Seq::empty()),
{
    let ghost full = replay_captures(moves@, 0, Seq::empty(), Seq::empty());
    let mut board = GoBoard::new();
    let mut r: Vec<CaptureEntry> = Vec::new();
    let mut i: usize = 0;
    proof {
        assert(vecs_view(board.groups@) =~= Seq::<Seq<Placement>>::empty());
        assert(captures_view(r@) =~= Seq::<(int, Seq<Placement>)>::empty());
        assert(captures_view(r@) + replay_captures(
            moves@,
            0,
            board.position@,
            vecs_view(board.groups@),
        ) =~= replay_captures(moves@, 0, Seq::empty(), Seq::empty()));
    }
    while i < moves.len()
        invariant
            i <= moves@.len(),
            full == replay_captures(moves@, 0, Seq::empty(), Seq::empty()),
            full =~= captures_view(r@) + replay_captures(
                moves@,
                i as int,
                board.position@,
                vecs_view(board.groups@),
            ),
        decreases moves@.len() - i,
    {
        let ghost pos0 = board.position@;
        let ghost groups0 = vecs_view(board.groups@);
        let cs = board.make_move(&moves[i]);
        if cs.len() > 0 {
            let ghost prev = captures_view(r@);
            r.push(CaptureEntry { move_number: i, stones: cs });
            proof {
                assert(captures_view(r@) =~= prev.push((i as int, board_step(
                    pos0,
                    groups0,
                    moves@[i as int],
                ).3)));
                assert(prev.push((i as int, board_step(pos0, groups0, moves@[i as int]).3)) + (
                replay_captures(moves@, i + 1, board.position@, vecs_view(board.groups@))) =~= prev
                    + (seq![(i as int, board_step(pos0, groups0, moves@[i as int]).3)]
                    + replay_captures(moves@, i + 1, board.position@, vecs_view(board.groups@))));
            }
        }
        i = i + 1;
    }
    proof {
        assert(captures_view(r@) + Seq::<(int, Seq<Placement>)>::empty() =~= captures_view(r@));
    }
    r
}

/// Lexicographic order on character sequences by code point.
pub open spec fn chars_le(a: Seq<char>, b: Seq<char>) -> bool
    decreases a.len(),
{
    if a.len() == 0 {
        true
    } else if b.len() == 0 {
        false
    } else if (a[0] as u32) < (b[0] as u32) {
        true
    } else if (a[0] as u32) > (b[0] as u32) {
        false
    } else {
        chars_le(a.drop_first(), b.drop_first())
    }
}

fn str_le(a: &str, b: &str) -> (r: bool)
    ensures
        r == chars_le(a@, b@),
{
    let la = a.unicode_len();
    let lb = b.unicode_len();
    let mut i: usize = 0;
    proof {
        assert(a@.skip(0) =~= a@);
        assert(b@.skip(0) =~= b@);
    }
    loop
        invariant
            la == a@.len(),
            lb == b@.len(),
            i <= la,
            i <= lb,
            chars_le(a@, b@) == chars_le(a@.skip(i as int), b@.skip(i as int)),
        decreases la - i,
    {
        proof {
            if i < la && i < lb {
                assert(a@.skip(i as int)[0] == a@[i as int]);
                assert(b@.skip(i as int)[0] == b@[i as int]);
                assert(a@.skip(i as int).drop_first() =~= a@.skip(i + 1));
                assert(b@.skip(i as int).drop_first() =~= b@.skip(i + 1));
            }
        }
        if i >= la {
            return true;
        }
        if i >= lb {
            return false;
        }
        let ca = a.get_char(i) as u32;
        let cb = b.get_char(i) as u32;
        if ca < cb {
            return true;
        }
        if ca > cb {
            return false;
        }
        i = i + 1;
    }
}

/// The corpus order on dates: more structured variants first, then field
/// by field, custom text lexicographically; dated games before undated.
pub open spec fn date_le(a: Option<SgfDate>, b: Option<SgfDate>) -> bool {
    match (a, b) {
        (Some(x), Some(y)) => sgf_date_le(x, y),
        (Some(x), None) => true,
        (None, Some(y)) => false,
        (None, None) => true,
    }
}

pub open spec fn date_variant_rank(d: SgfDate) -> int {
    match d {
        SgfDate::YearMonthDay(y, m, dd) => 0,
        SgfDate::YearMonth(y, m) => 1,
        SgfDate::Year(y) => 2,
        SgfDate::Custom(s) => 3,
    }
}

pub open spec fn sgf_date_le(a: SgfDate, b: SgfDate) -> bool {
    if date_variant_rank(a) != date_variant_rank(b) {
        date_variant_rank(a) < date_variant_rank(b)
    } else {
        match (a, b) {
            (SgfDate::YearMonthDay(y1, m1, d1), SgfDate::YearMonthDay(y2, m2, d2)) => if y1 != y2 {
                y1 < y2
            } else if m1 != m2 {
                m1 < m2
            } else {
                d1 <= d2
            },
            (SgfDate::YearMonth(y1, m1), SgfDate::YearMonth(y2, m2)) => if y1 != y2 {
                y1 < y2
            } else {
                m1 <= m2
            },
            (SgfDate::Year(y1), SgfDate::Year(y2)) => y1 <= y2,
            (SgfDate::Custom(s1), SgfDate::Custom(s2)) => chars_le(s1@, s2@),
            _ => true,
        }
    }
}

/// Whether one named game sorts at or before another by date.
fn game_date_le(a: &Option<SgfDate>, b: &Option<SgfDate>) -> (r: bool)
    ensures
        r == date_le(*a, *b),
{
    match (a, b) {
        (Some(x), Some(y)) => {
            let ra: u8 = match x {
                SgfDate::YearMonthDay(_, _, _) => 0,
                SgfDate::YearMonth(_, _) => 1,
                SgfDate::Year(_) => 2,
                SgfDate::Custom(_) => 3,
            };
            let rb: u8 = match y {
                SgfDate::YearMonthDay(_, _, _) => 0,
                SgfDate::YearMonth(_, _) => 1,
                SgfDate::Year(_) => 2,
                SgfDate::Custom(_) => 3,
            };
            if ra != rb {
                ra < rb
            } else {
                match (x, y) {
                    (SgfDate::YearMonthDay(y1, m1, d1), SgfDate::YearMonthDay(y2, m2, d2)) => {
                        if y1 != y2 {
                            y1 < y2
                        } else if m1 != m2 {
                            m1 < m2
                        } else {
                            d1 <= d2
                        }
                    },
                    (SgfDate::YearMonth(y1, m1), SgfDate::YearMonth(y2, m2)) => {
                        if y1 != y2 {
                            y1 < y2
                        } else {
                            m1 <= m2
                        }
                    },
                    (SgfDate::Year(y1), SgfDate::Year(y2)) => y1 <= y2,
                    (SgfDate::Custom(s1), SgfDate::Custom(s2)) => str_le(s1.as_str(), s2.as_str()),
                    _ => true,
                }
            }
        },
        (Some(_), None) => true,
        (None, Some(_)) => false,
        (None, None) => true,
    }
}

/// Stable insertion of a named game into a date-ascending run.
pub open spec fn insert_by_date(s: Seq<(String, Game)>, x: (String, Game)) -> Seq<(String, Game)>
    decreases s.len(),
{
    if s.len() == 0 {
        seq![x]
    } else if date_le(s.last().1.date, x.1.date) {
        s.push(x)
    } else {
        insert_by_date(s.drop_last(), x).push(s.last())
    }
}

/// The corpus sorted by date ascending, undated games last, ties stable.
pub open spec fn sort_games_by_date_spec(s: Seq<(String, Game)>) -> Seq<(String, Game)>
    decreases s.len(),
{
    if s.len() == 0 {
        Seq::empty()
    } else {
        insert_by_date(sort_games_by_date_spec(s.drop_last()), s.last())
    }
}

proof fn lemma_insert_by_date_at(s: Seq<(String, Game)>, x: (String, Game), p: int)
    requires
        0 <= p <= s.len(),
        forall|t: int| p <= t < s.len() ==> !date_le((#[trigger] s[t]).1.date, x.1.date),
        p == 0 || date_le(s[p - 1].1.date, x.1.date),
    ensures
        insert_by_date(s, x) == s.subrange(0, p).push(x) + s.subrange(p, s.len() as int),
    decreases s.len() - p,
{
    if p == s.len() {
        if s.len() == 0 || date_le(s.last().1.date, x.1.date) {
            assert(insert_by_date(s, x) =~= s.subrange(0, p).push(x) + s.subrange(
                p,
                s.len() as int,
            ));
        }
    } else {
        lemma_insert_by_date_at(s.drop_last(), x, p);
        assert(s.drop_last().subrange(0, p) =~= s.subrange(0, p));
        assert(s.drop_last().subrange(p, s.len() - 1) =~= s.subrange(p, s.len() - 1));
        assert((s.subrange(0, p).push(x) + s.subrange(p, s.len() - 1)).push(s.last()) =~= s.subrange(
            0,
            p,
        ).push(x) + s.subrange(p, s.len() as int));
    }
}

/// Sorts the corpus by date ascending, keeping ties and undated games in
/// their given order (undated games sort last).
pub fn sort_games_by_date(mut v: Vec<(String, Game)>) -> (r: Vec<(String, Game)>)
    ensures
        r@ == sort_games_by_date_spec(v@),
{
    let ghost orig = v@;
    let mut out: Vec<(String, Game)> = Vec::new();
    let mut i: usize = 0;
    let n = v.len();
    while i < n
        invariant
            i <= n,
            n == orig.len(),
            v@ == orig.skip(i as int),
            out@ == sort_games_by_date_spec(orig.subrange(0, i as int)),
        decreases n - i,
    {
        proof {
            assert(orig.subrange(0, i + 1).drop_last() =~= orig.subrange(0, i as int));
            assert(orig.subrange(0, i + 1).last() == orig[i as int]);
            assert(orig.skip(i as int)[0] == orig[i as int]);
        }
        let x = v.remove(0);
        proof {
            assert(v@ =~= orig.skip(i + 1));
        }
        let ghost xv = x;
        let mut p: usize = out.len();
        while p > 0 && !game_date_le(&out[p - 1].1.date, &x.1.date)
            invariant
                p <= out@.len(),
                forall|t: int| p <= t < out@.len() ==> !date_le((#[trigger] out@[t]).1.date,
                    xv.1.date,
                ),
                xv == x,
            decreases p,
        {
            p = p - 1;
        }
        proof {
            lemma_insert_by_date_at(out@, xv, p as int);
        }
        out.insert(p, x);
        i = i + 1;
    }
    proof {
        assert(orig.subrange(0, orig.len() as int) =~= orig);
    }
    out
}

/// A kept unique game: the move list it was first seen under (the
/// dedup key), its path, and the merged record.
pub open spec fn state_view(s: Seq<(Vec<Placement>, String, Game)>) -> Seq<
    (Seq<Placement>, String, Game),
> {
    s.map_values(|e: (Vec<Placement>, String, Game)| (e.0@, e.1, e.2))
}

/// The first kept entry whose key is exactly this move list.
pub open spec fn find_key(state: Seq<(Seq<Placement>, String, Game)>, key: Seq<Placement>) -> Option<
    int,
>
    decreases state.len(),
{
    if state.len() == 0 {
        None
    } else if state[0].0 == key {
        Some(0int)
    } else {
        match find_key(state.drop_first(), key) {
            Some(i) => Some(i + 1),
            None => None,
        }
    }
}

/// The kept entry an incoming game collides with: its moves, or any of
/// their three rotations, equal to a kept key.
pub open spec fn pass1_hit(state: Seq<(Seq<Placement>, String, Game)>, moves: Seq<Placement>) -> Option<
    int,
> {
    match find_key(state, moves) {
        Some(i) => Some(i),
        None => match find_key(state, rotated_seq(crate::board::Rotation::Degrees90, moves)) {
            Some(i) => Some(i),
            None => match find_key(
                state,
                rotated_seq(crate::board::Rotation::Degrees180, moves),
            ) {
                Some(i) => Some(i),
                None => find_key(state, rotated_seq(crate::board::Rotation::Degrees270, moves)),
            },
        },
    }
}

pub open spec fn norm_pair(x: i16, y: i16) -> (i16, i16) {
    if x <= y {
        (x, y)
    } else {
        (y, x)
    }
}

/// The player-id pairs a collision suggests as aliases: for each side
/// where both records carry a resolved id and they differ, the pair in
/// increasing order.
pub open spec fn alias_candidates(a: Game, b: Game) -> Seq<(i16, i16)> {
    let s1: Seq<(i16, i16)> = match (a.player_black, b.player_black) {
        (Player::Id(i1, n1), Player::Id(i2, n2)) => if i1 != i2 {
            seq![norm_pair(i1, i2)]
        } else {
            Seq::empty()
        },
        _ => Seq::empty(),
    };
    let s2: Seq<(i16, i16)> = match (a.player_white, b.player_white) {
        (Player::Id(i1, n1), Player::Id(i2, n2)) => if i1 != i2 {
            seq![norm_pair(i1, i2)]
        } else {
            Seq::empty()
        },
        _ => Seq::empty(),
    };
    s1 + s2
}

/// Candidate pairs folded into the accumulator without duplicates.
pub open spec fn add_pairs(acc: Seq<(i16, i16)>, ps: Seq<(i16, i16)>) -> Seq<(i16, i16)>
    decreases ps.len(),
{
    if ps.len() == 0 {
        acc
    } else {
        add_pairs(
            if acc.contains(ps[0]) {
                acc
            } else {
                acc.push(ps[0])
            },
            ps.drop_first(),
        )
    }
}

/// The first dedup pass: each incoming game either merges into the kept
/// entry one of its four rotations collides with (recording alias
/// candidates first), or is kept under its own moves.
pub open spec fn pass1(
    state: Seq<(Seq<Placement>, String, Game)>,
    aliases: Seq<(i16, i16)>,
    inputs: Seq<(String, Game)>,
) -> (Seq<(Seq<Placement>, String, Game)>, Seq<(i16, i16)>)
    decreases inputs.len(),
{
    if inputs.len() == 0 {
        (state, aliases)
    } else {
        let name = inputs[0].0;
        let g = inputs[0].1;
        match pass1_hit(state, g.moves@) {
            Some(i) => {
                let al2 = add_pairs(aliases, alias_candidates(state[i].2, g));
                let st2 = state.update(i, (state[i].0, state[i].1, spec_merge(state[i].2, g)));
                pass1(st2, al2, inputs.drop_first())
            },
            None => pass1(state.push((g.moves@, name, g)), aliases, inputs.drop_first()),
        }
    }
}

pub open spec fn pid(p: Player) -> Option<i16> {
    match p {
        Player::Id(i, n) => Some(i),
        Player::Unknown(n) => None,
    }
}

/// Date equality up to text content.
pub open spec fn date_eqv(a: Option<SgfDate>, b: Option<SgfDate>) -> bool {
    match (a, b) {
        (Some(SgfDate::YearMonthDay(y1, m1, d1)), Some(SgfDate::YearMonthDay(y2, m2, d2))) => y1
            == y2 && m1 == m2 && d1 == d2,
        (Some(SgfDate::YearMonth(y1, m1)), Some(SgfDate::YearMonth(y2, m2))) => y1 == y2 && m1
            == m2,
        (Some(SgfDate::Year(y1)), Some(SgfDate::Year(y2))) => y1 == y2,
        (Some(SgfDate::Custom(s1)), Some(SgfDate::Custom(s2))) => s1@ == s2@,
        (None, None) => true,
        _ => false,
    }
}

pub open spec fn first_fifty(g: Game) -> Seq<Placement> {
    g.moves@.subrange(
        0,
        if g.moves@.len() < 50 {
            g.moves@.len() as int
        } else {
            50
        },
    )
}

/// The second dedup key: both player ids, the date, and the first fifty
/// moves.
pub open spec fn p2_same_key(a: Game, b: Game) -> bool {
    &&& pid(a.player_black) == pid(b.player_black)
    &&& pid(a.player_white) == pid(b.player_white)
    &&& date_eqv(a.date, b.date)
    &&& first_fifty(a) == first_fifty(b)
}

pub open spec fn find_p2(state: Seq<(String, Game)>, g: Game) -> Option<int>
    decreases state.len(),
{
    if state.len() == 0 {
        None
    } else if p2_same_key(state[0].1, g) {
        Some(0int)
    } else {
        match find_p2(state.drop_first(), g) {
            Some(i) => Some(i + 1),
            None => None,
        }
    }
}

/// The second dedup pass: a survivor merges into the first kept game that
/// shares its players, date and opening, or is kept itself.
pub open spec fn pass2(state: Seq<(String, Game)>, inputs: Seq<(String, Game)>) -> Seq<
    (String, Game),
>
    decreases inputs.len(),
{
    if inputs.len() == 0 {
        state
    } else {
        match find_p2(state, inputs[0].1) {
            Some(i) => pass2(
                state.update(i, (state[i].0, spec_merge(state[i].1, inputs[0].1))),
                inputs.drop_first(),
            ),
            None => pass2(state.push(inputs[0]), inputs.drop_first()),
        }
    }
}

/// What deduplication leaves: the kept games of both passes, in
/// first-seen order, and the alias-candidate pairs.
pub open spec fn spec_find_duplicates(inputs: Seq<(String, Game)>) -> (
    Seq<(String, Game)>,
    Seq<(i16, i16)>,
) {
    let p1 = pass1(Seq::empty(), Seq::empty(), inputs);
    let kept = p1.0.map_values(|e: (Seq<Placement>, String, Game)| (e.1, e.2));
    (pass2(Seq::empty(), kept), p1.1)
}

fn placements_eq(a: &[Placement], b: &[Placement]) -> (r: bool)
    ensures
        r == (a@ == b@),
{
    if a.len() != b.len() {
        return false;
    }
    let mut i: usize = 0;
    while i < a.len()
        invariant
            a@.len() == b@.len(),
            i <= a@.len(),
            forall|k: int| 0 <= k < i ==> a@[k] == b@[k],
        decreases a@.len() - i,
    {
        if a[i] != b[i] {
            return false;
        }
        i = i + 1;
    }
    proof {
        assert(a@ =~= b@);
    }
    true
}

fn find_key_exec(state: &Vec<(Vec<Placement>, String, Game)>, key: &[Placement]) -> (r: Option<
    usize,
>)
    ensures
        match r {
            Some(i) => find_key(state_view(state@), key@) == Some(i as int) && i < state@.len(),
            None => find_key(state_view(state@), key@) is None,
        },
{
    let mut i: usize = 0;
    while i < state.len()
        invariant
            i <= state@.len(),
            forall|k: int| 0 <= k < i ==> (#[trigger] state_view(state@)[k]).0 != key@,
        decreases state@.len() - i,
    {
        if placements_eq(state[i].0.as_slice(), key) {
            proof {
                lemma_find_key_index(state_view(state@), key@, i as int);
            }
            return Some(i);
        }
        proof {
            assert(state_view(state@)[i as int].0 == state@[i as int].0@);
        }
        i = i + 1;
    }
    proof {
        lemma_find_key_none(state_view(state@), key@);
    }
    None
}

proof fn lemma_find_key_index(s: Seq<(Seq<Placement>, String, Game)>, key: Seq<Placement>, i: int)
    requires
        0 <= i < s.len(),
        s[i].0 == key,
        forall|k: int| 0 <= k < i ==> (#[trigger] s[k]).0 != key,
    ensures
        find_key(s, key) == Some(i),
    decreases i,
{
    if i > 0 {
        let d = s.drop_first();
        assert(d =~= s.subrange(1, s.len() as int));
        lemma_find_key_index(d, key, i - 1);
    }
}

proof fn lemma_find_key_none(s: Seq<(Seq<Placement>, String, Game)>, key: Seq<Placement>)
    requires
        forall|k: int| 0 <= k < s.len() ==> (#[trigger] s[k]).0 != key,
    ensures
        find_key(s, key) is None,
    decreases s.len(),
{
    if s.len() > 0 {
        let d = s.drop_first();
        assert(d =~= s.subrange(1, s.len() as int));
        lemma_find_key_none(d, key);
    }
}

proof fn lemma_find_p2_index(s: Seq<(String, Game)>, g: Game, i: int)
    requires
        0 <= i < s.len(),
        p2_same_key(s[i].1, g),
        forall|k: int| 0 <= k < i ==> !p2_same_key((#[trigger] s[k]).1, g),
    ensures
        find_p2(s, g) == Some(i),
    decreases i,
{
    if i > 0 {
        let d = s.drop_first();
        assert(d =~= s.subrange(1, s.len() as int));
        lemma_find_p2_index(d, g, i - 1);
    }
}

proof fn lemma_find_p2_none(s: Seq<(String, Game)>, g: Game)
    requires
        forall|k: int| 0 <= k < s.len() ==> !p2_same_key((#[trigger] s[k]).1, g),
    ensures
        find_p2(s, g) is None,
    decreases s.len(),
{
    if s.len() > 0 {
        let d = s.drop_first();
        assert(d =~= s.subrange(1, s.len() as int));
        lemma_find_p2_none(d, g);
    }
}

fn player_id_of(p: &Player) -> (r: Option<i16>)
    ensures
        r == pid(*p),
{
    match p {
        Player::Id(i, _) => Some(*i),
        Player::Unknown(_) => None,
    }
}

fn dates_eqv(a: &Option<SgfDate>, b: &Option<SgfDate>) -> (r: bool)
    ensures
        r == date_eqv(*a, *b),
{
    match (a, b) {
        (Some(SgfDate::YearMonthDay(y1, m1, d1)), Some(SgfDate::YearMonthDay(y2, m2, d2))) => y1
            == y2 && m1 == m2 && d1 == d2,
        (Some(SgfDate::YearMonth(y1, m1)), Some(SgfDate::YearMonth(y2, m2))) => y1 == y2 && m1
            == m2,
        (Some(SgfDate::Year(y1)), Some(SgfDate::Year(y2))) => y1 == y2,
        (Some(SgfDate::Custom(s1)), Some(SgfDate::Custom(s2))) => crate::text::str_eq(
            s1.as_str(),
            s2.as_str(),
        ),
        (None, None) => true,
        _ => false,
    }
}

fn p2_key_matches(a: &Game, b: &Game) -> (r: bool)
    ensures
        r == p2_same_key(*a, *b),
{
    let ia = player_id_of(&a.player_black);
    let ib = player_id_of(&b.player_black);
    let ok1 = match (ia, ib) {
        (Some(x), Some(y)) => x == y,
        (None, None) => true,
        _ => false,
    };
    if !ok1 {
        return false;
    }
    let wa = player_id_of(&a.player_white);
    let wb = player_id_of(&b.player_white);
    let ok2 = match (wa, wb) {
        (Some(x), Some(y)) => x == y,
        (None, None) => true,
        _ => false,
    };
    if !ok2 {
        return false;
    }
    if !dates_eqv(&a.date, &b.date) {
        return false;
    }
    let la = if a.moves.len() < 50 {
        a.moves.len()
    } else {
        50
    };
    let lb = if b.moves.len() < 50 {
        b.moves.len()
    } else {
        50
    };
    let sa = vstd::slice::slice_subrange(a.moves.as_slice(), 0, la);
    let sb = vstd::slice::slice_subrange(b.moves.as_slice(), 0, lb);
    placements_eq(sa, sb)
}

fn contains_pair(v: &Vec<(i16, i16)>, p: (i16, i16)) -> (r: bool)
    ensures
        r == v@.contains(p),
{
    let mut i: usize = 0;
    while i < v.len()
        invariant
            i <= v@.len(),
            forall|k: int| 0 <= k < i ==> v@[k] != p,
        decreases v@.len() - i,
    {
        if v[i].0 == p.0 && v[i].1 == p.1 {
            return true;
        }
        i = i + 1;
    }
    false
}

/// Removes duplicate games: first by the move list under all four
/// rotations, then by players, date and opening; collisions merge into the
/// kept record and differing resolved player ids are reported as possible
/// aliases.
#[verifier::rlimit(100)]
pub fn find_duplicates(games_vec: Vec<(String, Game)>) -> (r: (
    Vec<(String, Game)>,
    Vec<(i16, i16)>,
))
    requires
        forall|i: int| 0 <= i < games_vec@.len() ==> valid_position(
            (#[trigger] games_vec@[i]).1.moves@,
        ),
    ensures
        r.0@ == spec_find_duplicates(games_vec@).0,
        r.1@ == spec_find_duplicates(games_vec@).1,
{
    let ghost inputs = games_vec@;
    let ghost full1 = pass1(Seq::empty(), Seq::empty(), inputs);
    let mut state: Vec<(Vec<Placement>, String, Game)> = Vec::new();
    let mut aliases: Vec<(i16, i16)> = Vec::new();
    let mut rest = games_vec;
    let total = rest.len();
    let mut t: usize = 0;
    let ghost n = inputs.len();
    proof {
        assert(inputs.skip(0) =~= inputs);
        assert(state_view(state@) =~= Seq::<(Seq<Placement>, String, Game)>::empty());
    }
    while rest.len() > 0
        invariant
            t + rest@.len() == n,
            n == total,
            n == inputs.len(),
            rest@ == inputs.skip(t as int),
            forall|i: int| 0 <= i < inputs.len() ==> valid_position(
                (#[trigger] inputs[i]).1.moves@,
            ),
            full1 == pass1(Seq::empty(), Seq::empty(), inputs),
            full1 == pass1(state_view(state@), aliases@, inputs.skip(t as int)),
        decreases rest@.len(),
    {
        proof {
            assert(inputs.skip(t as int)[0] == inputs[t as int]);
            assert(inputs.skip(t as int).drop_first() =~= inputs.skip(t as int + 1));
        }
        let (name, game) = rest.remove(0);
        proof {
            assert(rest@ =~= inputs.skip(t as int + 1));
            assert(valid_position(game.moves@));
        }
        // Try the four rotations of the move list against the kept keys.
        let hit = match find_key_exec(&state, game.moves.as_slice()) {
            Some(i) => Some(i),
            None => {
                let r90 = get_rotated(game.moves.as_slice(), &crate::board::Rotation::Degrees90);
                match find_key_exec(&state, r90.as_slice()) {
                    Some(i) => Some(i),
                    None => {
                        let r180 = get_rotated(
                            game.moves.as_slice(),
                            &crate::board::Rotation::Degrees180,
                        );
                        match find_key_exec(&state, r180.as_slice()) {
                            Some(i) => Some(i),
                            None => {
                                let r270 = get_rotated(
                                    game.moves.as_slice(),
                                    &crate::board::Rotation::Degrees270,
                                );
                                find_key_exec(&state, r270.as_slice())
                            },
                        }
                    },
                }
            },
        };
        proof {
            match hit {
                Some(i) => {
                    assert(pass1_hit(state_view(state@), game.moves@) == Some(i as int));
                },
                None => {
                    assert(pass1_hit(state_view(state@), game.moves@) is None);
                },
            }
        }
        match hit {
            Some(i) => {
                let ghost st_pre = state_view(state@);
                let ghost al_pre = aliases@;
                // Record alias candidates before merging.
                let kept_black_id = player_id_of(&state[i].2.player_black);
                let incoming_black_id = player_id_of(&game.player_black);
                match (kept_black_id, incoming_black_id) {
                    (Some(x), Some(y)) => {
                        if x != y {
                            let p = if x <= y {
                                (x, y)
                            } else {
                                (y, x)
                            };
                            if !contains_pair(&aliases, p) {
                                aliases.push(p);
                            }
                        }
                    },
                    _ => {},
                }
                let kept_white_id = player_id_of(&state[i].2.player_white);
                let incoming_white_id = player_id_of(&game.player_white);
                match (kept_white_id, incoming_white_id) {
                    (Some(x), Some(y)) => {
                        if x != y {
                            let p = if x <= y {
                                (x, y)
                            } else {
                                (y, x)
                            };
                            if !contains_pair(&aliases, p) {
                                aliases.push(p);
                            }
                        }
                    },
                    _ => {},
                }
                proof {
                    reveal_with_fuel(add_pairs, 4);
                    assert(aliases@ =~= add_pairs(al_pre, alias_candidates(st_pre[i as int].2, game)));
                }
                let mut entry = state.remove(i);
                merge_games(&mut entry.2, game);
                state.insert(i, entry);
                proof {
                    assert(state_view(state@) =~= st_pre.update(
                        i as int,
                        (st_pre[i as int].0, st_pre[i as int].1, spec_merge(st_pre[i as int].2, inputs[t as int].1)),
                    ));
                }
            },
            None => {
                let key = duplicate_moves(&game.moves);
                let ghost st_pre = state_view(state@);
                state.push((key, name, game));
                proof {
                    assert(state_view(state@) =~= st_pre.push(
                        (inputs[t as int].1.moves@, inputs[t as int].0, inputs[t as int].1),
                    ));
                }
            },
        }
        t = t + 1;
    }
    proof {
        assert(inputs.skip(n as int) =~= Seq::<(String, Game)>::empty());
        assert(state_view(state@) == full1.0);
        assert(aliases@ == full1.1);
    }

    // Second pass over the survivors.
    let ghost kept = full1.0.map_values(|e: (Seq<Placement>, String, Game)| (e.1, e.2));
    let ghost full2 = pass2(Seq::empty(), kept);
    let mut out: Vec<(String, Game)> = Vec::new();
    let mut s = state;
    let total2 = s.len();
    let ghost n2 = kept.len();
    let mut t2: usize = 0;
    proof {
        assert(s@.map_values(|e: (Vec<Placement>, String, Game)| (e.1, e.2)) =~= kept);
        assert(kept.skip(0) =~= kept);
        assert(s@.map_values(|e: (Vec<Placement>, String, Game)| (e.1, e.2)) =~= kept.skip(0));
    }
    while s.len() > 0
        invariant
            t2 + s@.len() == n2,
            n2 == total2,
            n2 == kept.len(),
            s@.map_values(|e: (Vec<Placement>, String, Game)| (e.1, e.2)) == kept.skip(t2 as int),
            full2 == pass2(Seq::empty(), kept),
            full2 == pass2(out@, kept.skip(t2 as int)),
        decreases s@.len(),
    {
        proof {
            assert(kept.skip(t2 as int)[0] == s@.map_values(
                |e: (Vec<Placement>, String, Game)| (e.1, e.2),
            )[0]);
            assert(kept.skip(t2 as int).drop_first() =~= kept.skip(t2 as int + 1));
        }
        let (_key, name, game) = s.remove(0);
        proof {
            assert(s@.map_values(|e: (Vec<Placement>, String, Game)| (e.1, e.2)) =~= kept.skip(
                t2 as int + 1,
            ));
        }
        let mut i: usize = 0;
        let mut hit2: Option<usize> = None;
        while i < out.len() && hit2.is_none()
            invariant
                i <= out@.len(),
                hit2 is None ==> forall|k: int|
                    0 <= k < i ==> !p2_same_key((#[trigger] out@[k]).1, game),
                match hit2 {
                    Some(h) => h < out@.len() && p2_same_key(out@[h as int].1, game) && forall|
                        k: int,
                    |
                        0 <= k < h ==> !p2_same_key((#[trigger] out@[k]).1, game),
                    None => true,
                },
            decreases out@.len() - i, (if hit2 is None { 1int } else { 0int }),
        {
            if p2_key_matches(&out[i].1, &game) {
                hit2 = Some(i);
            } else {
                i = i + 1;
            }
        }
        match hit2 {
            Some(h) => {
                proof {
                    lemma_find_p2_index(out@, game, h as int);
                }
                let ghost out_pre = out@;
                let mut entry = out.remove(h);
                merge_games(&mut entry.1, game);
                out.insert(h, entry);
                proof {
                    assert(out@ =~= out_pre.update(
                        h as int,
                        (out_pre[h as int].0, spec_merge(out_pre[h as int].1, kept.skip(t2 as int)[0].1)),
                    ));
                }
            },
            None => {
                proof {
                    lemma_find_p2_none(out@, game);
                }
                let ghost out_pre = out@;
                out.push((name, game));
                proof {
                    assert(out@ =~= out_pre.push(kept.skip(t2 as int)[0]));
                }
            },
        }
        t2 = t2 + 1;
    }
    proof {
        assert(kept.skip(n2 as int) =~= Seq::<(String, Game)>::empty());
        assert(out@ == full2);
    }
    (out, aliases)
}

/// Merged ranks, the incoming first.
fn merge_rank(incoming: Rank, existing: Rank) -> (r: Rank)
    ensures
        r == spec_merge_rank(incoming, existing),
{
    match (incoming, existing) {
        (Rank::Pro(n), _) => Rank::Pro(n),
        (_, Rank::Pro(n)) => Rank::Pro(n),
        (Rank::Dan(n), _) => Rank::Dan(n),
        (_, Rank::Dan(n)) => Rank::Dan(n),
        (Rank::Kyu(n), _) => Rank::Kyu(n),
        (_, Rank::Kyu(n)) => Rank::Kyu(n),
        (Rank::Custom(s1), Rank::Custom(s2)) => {
            if s1.as_str().unicode_len() == 0 {
                Rank::Custom(s2)
            } else {
                Rank::Custom(s1)
            }
        },
    }
}


/// One variation node's move-bearing properties, in node order: a played
/// move or a batch of setup stones, with raw byte coordinates.
pub enum NodeProp {
    Move(crate::board::Color, u8, u8),
    Setup(crate::board::Color, Vec<(u8, u8)>),
}

/// The raw text and structure of one game record, as its file parser
/// reports it.
pub struct RawGameRecord {
    pub event: String,
    pub round: String,
    pub location: String,
    pub date_text: Option<String>,
    pub black_player: String,
    pub white_player: String,
    pub black_rank: Option<String>,
    pub white_rank: Option<String>,
    pub komi: Option<u32>,
    pub result_text: Option<String>,
    pub rules_text: Option<String>,
    pub board_size: Option<(u8, u8)>,
    pub nodes: Vec<Vec<NodeProp>>,
}

/// Why a record was dropped from the corpus.
#[derive(Debug, Clone, Copy, PartialEq, Eq, Structural)]
pub enum GameRejection {
    MultiplePlayers,
    WrongBoardSize,
    NoMoves,
    TooFewMoves,
}

/// Whether a pattern occurs anywhere in a text.
pub open spec fn contains_seq(s: Seq<char>, pat: Seq<char>) -> bool {
    exists|i: int|
        0 <= i <= s.len() - pat.len() && #[trigger] s.subrange(i, i + pat.len() as int) == pat
}

/// Naive substring search.
pub fn str_contains(s: &str, pat: &str) -> (r: bool)
    ensures
        r == contains_seq(s@, pat@),
{
    let ls = s.unicode_len();
    let lp = pat.unicode_len();
    if lp > ls {
        return false;
    }
    if lp == 0 {
        proof {
            assert(s@.subrange(0, 0 + pat@.len() as int) =~= pat@);
        }
        return true;
    }
    let mut i: usize = 0;
    while i <= ls - lp
        invariant
            lp >= 1,
            ls == s@.len(),
            lp == pat@.len(),
            lp <= ls,
            i <= ls - lp + 1,
            forall|k: int| 0 <= k < i ==> #[trigger] s@.subrange(k, k + pat@.len() as int) != pat@,
        decreases ls - lp + 1 - i,
    {
        let mut j: usize = 0;
        let mut all = true;
        while j < lp && all
            invariant
                ls == s@.len(),
                lp == pat@.len(),
                i + lp <= ls,
                j <= lp,
                all ==> forall|k: int| 0 <= k < j ==> s@[i + k] == pat@[k],
                !all ==> s@.subrange(i as int, i + pat@.len() as int) != pat@,
            decreases lp - j, (if all { 1int } else { 0int }),
        {
            if s.get_char(i + j) != pat.get_char(j) {
                proof {
                    assert(s@.subrange(i as int, i + pat@.len() as int)[j as int] == s@[i + j]);
                }
                all = false;
            } else {
                j = j + 1;
            }
        }
        if all {
            proof {
                assert(s@.subrange(i as int, i + pat@.len() as int) =~= pat@);
            }
            return true;
        }
        i = i + 1;
    }
    false
}

/// The number of commas in a text.
pub open spec fn comma_count(s: Seq<char>) -> int {
    crate::result::count_char(s, ',')
}

/// A name that looks like it holds more than one player.
pub open spec fn spec_multiple_players(s: Seq<char>) -> bool {
    ||| contains_seq(s, " and "@)
    ||| contains_seq(s, "&"@)
    ||| comma_count(s) > 1
    ||| contains_seq(s, "day 1"@)
}

/// Flags player-name texts that name several people.
pub fn has_multiple_players(name: &str) -> (r: bool)
    ensures
        r == spec_multiple_players(name@),
{
    if str_contains(name, " and ") {
        return true;
    }
    if str_contains(name, "&") {
        return true;
    }
    if str_contains(name, "day 1") {
        return true;
    }
    let len = name.unicode_len();
    let mut commas: usize = 0;
    let mut i: usize = 0;
    while i < len
        invariant
            len == name@.len(),
            i <= len,
            commas <= i,
            commas == crate::result::count_char(name@.subrange(0, i as int), ','),
        decreases len - i,
    {
        proof {
            assert(name@.subrange(0, i + 1).drop_last() =~= name@.subrange(0, i as int));
            assert(name@.subrange(0, i + 1).last() == name@[i as int]);
        }
        if name.get_char(i) == ',' {
            commas = commas + 1;
        }
        i = i + 1;
    }
    proof {
        assert(name@.subrange(0, name@.len() as int) =~= name@);
    }
    commas > 1
}

/// The move list a record's main variation yields: each node contributes
/// its first played move (dropped entirely when off the board) and every
/// on-board setup stone, in node order.
pub open spec fn spec_node_moves(props: Seq<NodeProp>, k: int) -> Seq<Placement>
    decreases k,
{
    if k <= 0 || k > props.len() {
        Seq::empty()
    } else {
        let rest = spec_node_moves(props, k - 1);
        match props[k - 1] {
            NodeProp::Move(c, x, y) => rest,
            NodeProp::Setup(c, pts) => rest + spec_setup_stones(c, pts@),
        }
    }
}

/// Moves contributed by one node: scan properties in order; the first
/// played move ends the node's scan, whether kept or dropped.
pub open spec fn spec_node_contribution(props: Seq<NodeProp>) -> Seq<Placement> {
    match first_move_index(props) {
        Some(k) => spec_node_moves(props, k) + spec_kept_move(props[k]),
        None => spec_node_moves(props, props.len() as int),
    }
}

pub open spec fn first_move_index(props: Seq<NodeProp>) -> Option<int>
    decreases props.len(),
{
    if props.len() == 0 {
        None
    } else if props[0] is Move {
        Some(0int)
    } else {
        match first_move_index(props.drop_first()) {
            Some(i) => Some(i + 1),
            None => None,
        }
    }
}

pub open spec fn spec_kept_move(p: NodeProp) -> Seq<Placement> {
    match p {
        NodeProp::Move(c, x, y) => if x < crate::board::BOARD_SIZE && y < crate::board::BOARD_SIZE {
            seq![Placement { color: c, point: crate::board::Point { x, y } }]
        } else {
            Seq::empty()
        },
        NodeProp::Setup(c, pts) => Seq::empty(),
    }
}

pub open spec fn spec_setup_stones(c: crate::board::Color, pts: Seq<(u8, u8)>) -> Seq<Placement>
    decreases pts.len(),
{
    if pts.len() == 0 {
        Seq::empty()
    } else {
        let rest = spec_setup_stones(c, pts.drop_last());
        let p = pts.last();
        if p.0 < crate::board::BOARD_SIZE && p.1 < crate::board::BOARD_SIZE {
            rest.push(Placement { color: c, point: crate::board::Point { x: p.0, y: p.1 } })
        } else {
            rest
        }
    }
}

pub open spec fn spec_collected_moves(nodes: Seq<Seq<NodeProp>>) -> Seq<Placement>
    decreases nodes.len(),
{
    if nodes.len() == 0 {
        Seq::empty()
    } else {
        spec_collected_moves(nodes.drop_last()) + spec_node_contribution(nodes.last())
    }
}

fn collect_node_moves(props: &Vec<NodeProp>, out: &mut Vec<Placement>)
    ensures
        final(out)@ == old(out)@ + spec_node_contribution(props@),
{
    let ghost base = out@;
    let mut i: usize = 0;
    while i < props.len()
        invariant
            base == old(out)@,
            i <= props@.len(),
            forall|k: int| 0 <= k < i ==> !((#[trigger] props@[k]) is Move),
            first_move_index(props@.subrange(0, i as int)) is None,
            out@ == base + spec_node_moves(props@, i as int),
        decreases props@.len() - i,
    {
        match &props[i] {
            NodeProp::Move(c, x, y) => {
                if *x < crate::board::BOARD_SIZE && *y < crate::board::BOARD_SIZE {
                    out.push(Placement { color: *c, point: crate::board::Point { x: *x, y: *y } });
                }
                proof {
                    lemma_first_move_at(props@, i as int);
                    assert(out@ =~= base + (spec_node_moves(props@, i as int) + spec_kept_move(
                        props@[i as int],
                    )));
                }
                return ;
            },
            NodeProp::Setup(c, pts) => {
                let ghost mid = out@;
                let mut j: usize = 0;
                while j < pts.len()
                    invariant
                        j <= pts@.len(),
                        out@ == mid + spec_setup_stones(*c, pts@.subrange(0, j as int)),
                    decreases pts@.len() - j,
                {
                    proof {
                        assert(pts@.subrange(0, j + 1).drop_last() =~= pts@.subrange(0, j as int));
                        assert(pts@.subrange(0, j + 1).last() == pts@[j as int]);
                    }
                    let (x, y) = pts[j];
                    if x < crate::board::BOARD_SIZE && y < crate::board::BOARD_SIZE {
                        out.push(
                            Placement { color: *c, point: crate::board::Point { x, y } },
                        );
                    }
                    j = j + 1;
                }
                proof {
                    assert(pts@.subrange(0, pts@.len() as int) =~= pts@);
                    assert(spec_node_moves(props@, i as int + 1) == spec_node_moves(
                        props@,
                        i as int,
                    ) + spec_setup_stones(*c, pts@));
                    assert(out@ =~= base + (spec_node_moves(props@, i as int) + spec_setup_stones(
                        *c,
                        pts@,
                    )));
                    assert(out@ =~= base + spec_node_moves(props@, i as int + 1));
                    lemma_first_move_none(props@.subrange(0, i as int + 1));
                }
            },
        }
        i = i + 1;
    }
    proof {
        assert(props@.subrange(0, props@.len() as int) =~= props@);
        lemma_first_move_none(props@);
    }
}

proof fn lemma_first_move_at(props: Seq<NodeProp>, i: int)
    requires
        0 <= i < props.len(),
        props[i] is Move,
        forall|k: int| 0 <= k < i ==> !((#[trigger] props[k]) is Move),
    ensures
        first_move_index(props) == Some(i),
    decreases i,
{
    if i > 0 {
        let d = props.drop_first();
        assert(d =~= props.subrange(1, props.len() as int));
        lemma_first_move_at(d, i - 1);
    }
}

proof fn lemma_first_move_none(props: Seq<NodeProp>)
    requires
        forall|k: int| 0 <= k < props.len() ==> !((#[trigger] props[k]) is Move),
    ensures
        first_move_index(props) is None,
    decreases props.len(),
{
    if props.len() > 0 {
        let d = props.drop_first();
        assert(d =~= props.subrange(1, props.len() as int));
        lemma_first_move_none(d);
    }
}

/// The moves of a record's main variation, node by node.
pub fn collect_moves(nodes: &Vec<Vec<NodeProp>>) -> (r: Vec<Placement>)
    ensures
        r@ == spec_collected_moves(vecs_props_view(nodes@)),
{
    let mut r: Vec<Placement> = Vec::new();
    let mut i: usize = 0;
    while i < nodes.len()
        invariant
            i <= nodes@.len(),
            r@ == spec_collected_moves(vecs_props_view(nodes@).subrange(0, i as int)),
        decreases nodes@.len() - i,
    {
        proof {
            assert(vecs_props_view(nodes@).subrange(0, i + 1).drop_last() =~= vecs_props_view(
                nodes@,
            ).subrange(0, i as int));
            assert(vecs_props_view(nodes@).subrange(0, i + 1).last() == nodes@[i as int]@);
        }
        collect_node_moves(&nodes[i], &mut r);
        i = i + 1;
    }
    proof {
        assert(vecs_props_view(nodes@).subrange(0, nodes@.len() as int) =~= vecs_props_view(
            nodes@,
        ));
    }
    r
}

pub open spec fn vecs_props_view(s: Seq<Vec<NodeProp>>) -> Seq<Seq<NodeProp>> {
    s.map_values(|v: Vec<NodeProp>| v@)
}

/// Builds one corpus game from a raw record: the metadata parsers run over
/// the raw texts, and the record is rejected when a player name holds
/// several people, a declared board size is not this board's, or the main
/// variation has no move or fewer than five.
pub fn extract_game(record: RawGameRecord) -> (r: Result<(Game, String, String), GameRejection>)
    ensures
        match r {
            Ok(g) => {
                &&& !spec_multiple_players(record.black_player@)
                &&& !spec_multiple_players(record.white_player@)
                &&& (record.board_size matches Some(sz) ==> sz == (
                    crate::board::BOARD_SIZE,
                    crate::board::BOARD_SIZE,
                ))
                &&& g.0.moves@ == spec_collected_moves(vecs_props_view(record.nodes@))
                &&& g.0.moves@.len() >= 5
                &&& g.1@ == record.black_player@
                &&& g.2@ == record.white_player@
                &&& g.0.event == record.event
                &&& g.0.round == record.round
                &&& g.0.location == record.location
                &&& (match record.date_text {
                    Some(d) => g.0.date matches Some(pd) && crate::meta::date_matches(d@, pd),
                    None => g.0.date is None,
                })
                &&& (g.0.player_black matches Player::Unknown(n) && n@ == record.black_player@)
                &&& (g.0.player_white matches Player::Unknown(n) && n@ == record.white_player@)
                &&& (match record.black_rank {
                    Some(t) => crate::meta::rank_matches(t@, g.0.rank_black),
                    None => g.0.rank_black matches Rank::Custom(c) && c@ == Seq::<char>::empty(),
                })
                &&& (match record.white_rank {
                    Some(t) => crate::meta::rank_matches(t@, g.0.rank_white),
                    None => g.0.rank_white matches Rank::Custom(c) && c@ == Seq::<char>::empty(),
                })
                &&& g.0.komi == record.komi
                &&& (match record.rules_text {
                    Some(t) => g.0.rules matches Some(ru) && crate::meta::rules_matches(t@, ru),
                    None => g.0.rules is None,
                })
                &&& (match record.result_text {
                    Some(t) => crate::result::result_matches(t@, g.0.result),
                    None => g.0.result matches GameResult::Unknown(c) && c@ == Seq::<
                        char,
                    >::empty(),
                })
                &&& captures_view(g.0.captures@) == Seq::<(int, Seq<Placement>)>::empty()
            },
            Err(e) => {
                ||| (e == GameRejection::MultiplePlayers && (spec_multiple_players(
                    record.black_player@,
                ) || spec_multiple_players(record.white_player@)))
                ||| (e == GameRejection::WrongBoardSize && (record.board_size matches Some(sz)
                    && sz != (crate::board::BOARD_SIZE, crate::board::BOARD_SIZE)))
                ||| (e == GameRejection::NoMoves && spec_collected_moves(
                    vecs_props_view(record.nodes@),
                ).len() == 0)
                ||| (e == GameRejection::TooFewMoves && spec_collected_moves(
                    vecs_props_view(record.nodes@),
                ).len() < 5)
            },
        },
{
    if has_multiple_players(record.black_player.as_str()) || has_multiple_players(
        record.white_player.as_str(),
    ) {
        return Err(GameRejection::MultiplePlayers);
    }
    match record.board_size {
        Some(sz) => {
            if !(sz.0 == crate::board::BOARD_SIZE && sz.1 == crate::board::BOARD_SIZE) {
                return Err(GameRejection::WrongBoardSize);
            }
        },
        None => {},
    }
    let moves = collect_moves(&record.nodes);
    if moves.len() == 0 {
        return Err(GameRejection::NoMoves);
    }
    if moves.len() < 5 {
        return Err(GameRejection::TooFewMoves);
    }
    let date = match &record.date_text {
        Some(d) => Some(crate::meta::parse_sgf_date(d.as_str())),
        None => None,
    };
    let rank_black = match &record.black_rank {
        Some(t) => crate::meta::parse_rank(t.as_str()),
        None => Rank::Custom(String::new()),
    };
    let rank_white = match &record.white_rank {
        Some(t) => crate::meta::parse_rank(t.as_str()),
        None => Rank::Custom(String::new()),
    };
    let rules = match &record.rules_text {
        Some(t) => Some(crate::meta::parse_rules(t.as_str())),
        None => None,
    };
    let result = match &record.result_text {
        Some(t) => crate::result::parse_sgf_result(t.as_str()),
        None => GameResult::Unknown(String::new()),
    };
    let game = Game {
        event: record.event,
        round: record.round,
        location: record.location,
        date,
        player_black: Player::Unknown(record.black_player.clone()),
        player_white: Player::Unknown(record.white_player.clone()),
        rank_black,
        rank_white,
        komi: record.komi,
        rules,
        result,
        moves,
        captures: Vec::new(),
    };
    proof {
        assert(captures_view(game.captures@) =~= Seq::<(int, Seq<Placement>)>::empty());
    }
    Ok((game, record.black_player, record.white_player))
}


/// A raw player name normalized: line breaks become spaces, commas are
/// dropped.
pub open spec fn cleaned_chars(s: Seq<char>) -> Seq<char>
    decreases s.len(),
{
    if s.len() == 0 {
        Seq::empty()
    } else {
        let rest = cleaned_chars(s.drop_last());
        if s.last() == ',' {
            rest
        } else if s.last() == '\n' {
            rest.push(' ')
        } else {
            rest.push(s.last())
        }
    }
}

/// The normalized form of a raw player name: line breaks to spaces, commas
/// removed, then trimmed.
pub fn clean_name(s: &str) -> (r: String)
    ensures
        r@ == crate::text::trim_spec(cleaned_chars(s@)),
{
    let len = s.unicode_len();
    let mut v: Vec<char> = Vec::new();
    let mut i: usize = 0;
    while i < len
        invariant
            len == s@.len(),
            i <= len,
            v@ == cleaned_chars(s@.subrange(0, i as int)),
        decreases len - i,
    {
        proof {
            assert(s@.subrange(0, i + 1).drop_last() =~= s@.subrange(0, i as int));
            assert(s@.subrange(0, i + 1).last() == s@[i as int]);
        }
        let c = s.get_char(i);
        if c == ',' {
        } else if c == '\n' {
            v.push(' ');
        } else {
            v.push(c);
        }
        i = i + 1;
    }
    proof {
        assert(s@.subrange(0, s@.len() as int) =~= s@);
    }
    let cs = crate::text::chars_to_string(&v);
    let trimmed = crate::text::trim_str(cs.as_str());
    trimmed.to_owned()
}

/// The first alias entry whose folded name is this folded name.
pub open spec fn alias_lookup(aliases: Seq<(String, i16)>, folded: Seq<char>) -> Option<i16>
    decreases aliases.len(),
{
    if aliases.len() == 0 {
        None
    } else if aliases[0].0@ == folded {
        Some(aliases[0].1)
    } else {
        alias_lookup(aliases.drop_first(), folded)
    }
}

proof fn lemma_alias_lookup_at(aliases: Seq<(String, i16)>, folded: Seq<char>, i: int)
    requires
        0 <= i < aliases.len(),
        aliases[i].0@ == folded,
        forall|k: int| 0 <= k < i ==> (#[trigger] aliases[k]).0@ != folded,
    ensures
        alias_lookup(aliases, folded) == Some(aliases[i].1),
    decreases i,
{
    if i > 0 {
        let d = aliases.drop_first();
        assert(d =~= aliases.subrange(1, aliases.len() as int));
        lemma_alias_lookup_at(d, folded, i - 1);
    }
}

proof fn lemma_alias_lookup_none(aliases: Seq<(String, i16)>, folded: Seq<char>)
    requires
        forall|k: int| 0 <= k < aliases.len() ==> (#[trigger] aliases[k]).0@ != folded,
    ensures
        alias_lookup(aliases, folded) is None,
    decreases aliases.len(),
{
    if aliases.len() > 0 {
        let d = aliases.drop_first();
        assert(d =~= aliases.subrange(1, aliases.len() as int));
        lemma_alias_lookup_none(d, folded);
    }
}

/// Resolves a raw player name against the alias table: the name is
/// normalized, an empty name stays unresolved and empty, a case-folded hit
/// yields the id with the normalized name, and anything else keeps the
/// normalized name unresolved.
pub fn find_player_id(name: &str, aliases: &Vec<(String, i16)>) -> (r: Player)
    ensures
        ({
            let c = crate::text::trim_spec(cleaned_chars(name@));
            if c.len() == 0 {
                r matches Player::Unknown(n) && n@ == Seq::<char>::empty()
            } else {
                match alias_lookup(aliases@, crate::text::lower_of(c)) {
                    Some(id) => r matches Player::Id(i, n) && i == id && n@ == c,
                    None => r matches Player::Unknown(n) && n@ == c,
                }
            }
        }),
{
    let cleaned = clean_name(name);
    if cleaned.as_str().unicode_len() == 0 {
        return Player::Unknown(String::new());
    }
    let folded = crate::text::lowercase(cleaned.as_str());
    let mut i: usize = 0;
    while i < aliases.len()
        invariant
            i <= aliases@.len(),
            cleaned@ == crate::text::trim_spec(cleaned_chars(name@)),
            cleaned@.len() > 0,
            folded@ == crate::text::lower_of(cleaned@),
            forall|k: int| 0 <= k < i ==> (#[trigger] aliases@[k]).0@ != folded@,
        decreases aliases@.len() - i,
    {
        if crate::text::str_eq(aliases[i].0.as_str(), folded.as_str()) {
            let id = aliases[i].1;
            proof {
                lemma_alias_lookup_at(aliases@, folded@, i as int);
            }
            return Player::Id(id, cleaned);
        }
        i = i + 1;
    }
    proof {
        lemma_alias_lookup_none(aliases@, folded@);
    }
    Player::Unknown(cleaned)
}


pub open spec fn bump_optional(acc: Seq<(i16, int)>, o: Option<i16>) -> Seq<(i16, int)> {
    match o {
        Some(id) => crate::facade::counts_bump(acc, id),
        None => acc,
    }
}

/// How many corpus games each resolved player id takes part in, counting
/// both sides of every game, entries in first-seen order.
pub open spec fn game_counts_fold(acc: Seq<(i16, int)>, games: Seq<(String, Game)>) -> Seq<
    (i16, int),
>
    decreases games.len(),
{
    if games.len() == 0 {
        acc
    } else {
        game_counts_fold(
            bump_optional(
                bump_optional(acc, pid(games[0].1.player_black)),
                pid(games[0].1.player_white),
            ),
            games.drop_first(),
        )
    }
}

/// Counts one more appearance of a resolved player.
fn bump_count(player_counts: &mut Vec<(i16, usize)>, o: Option<i16>, bound: Ghost<int>)
    requires
        0 <= bound@ <= 4000000,
        forall|k: int|
            0 <= k < old(player_counts)@.len() ==> (#[trigger] old(player_counts)@[k]).1 <= bound@,
    ensures
        crate::facade::counts_view(final(player_counts)@) == bump_optional(
            crate::facade::counts_view(old(player_counts)@),
            o,
        ),
        forall|k: int|
            0 <= k < final(player_counts)@.len() ==> (#[trigger] final(player_counts)@[k]).1
                <= bound@ + 1,
{
    let id = match o {
        Some(i) => i,
        None => {
            return ;
        },
    };
    let ghost pre = crate::facade::counts_view(player_counts@);
    let mut j: usize = 0;
    while j < player_counts.len()
        invariant
            0 <= bound@ <= 4000000,
            j <= player_counts@.len(),
            player_counts@ == old(player_counts)@,
            pre == crate::facade::counts_view(player_counts@),
            o == Some(id),
            forall|k: int| 0 <= k < j ==> (#[trigger] player_counts@[k]).0 != id,
            forall|k: int|
                0 <= k < player_counts@.len() ==> (#[trigger] player_counts@[k]).1 <= bound@,
        decreases player_counts@.len() - j,
    {
        if player_counts[j].0 == id {
            let e = player_counts.remove(j);
            player_counts.insert(j, (id, e.1 + 1));
            proof {
                assert forall|k: int| 0 <= k < j implies (#[trigger] pre[k]).0 != id by {
                    assert(pre[k].0 == player_counts@[k].0);
                }
                crate::facade::lemma_counts_bump_at(pre, id, j as int);
                assert(crate::facade::counts_view(player_counts@) =~= crate::facade::counts_bump(
                    pre,
                    id,
                ));
            }
            return ;
        }
        j = j + 1;
    }
    proof {
        assert forall|k: int| 0 <= k < pre.len() implies (#[trigger] pre[k]).0 != id by {
            assert(pre[k].0 == player_counts@[k].0);
        }
    }
    player_counts.push((id, 1));
    proof {
        crate::facade::lemma_counts_bump_missing(pre, id);
        assert(crate::facade::counts_view(player_counts@) =~= crate::facade::counts_bump(pre, id));
    }
}

/// Counts how many games of the corpus each resolved player id plays in.
pub fn count_player_ids(games: &Vec<(String, Game)>) -> (r: Vec<(i16, usize)>)
    requires
        games@.len() <= 1000000,
    ensures
        crate::facade::counts_view(r@) == game_counts_fold(Seq::empty(), games@),
{
    let ghost full = game_counts_fold(Seq::empty(), games@);
    let mut r: Vec<(i16, usize)> = Vec::new();
    let mut i: usize = 0;
    proof {
        assert(games@.skip(0) =~= games@);
        assert(crate::facade::counts_view(r@) =~= Seq::<(i16, int)>::empty());
    }
    while i < games.len()
        invariant
            games@.len() <= 1000000,
            i <= games@.len(),
            full == game_counts_fold(Seq::empty(), games@),
            full == game_counts_fold(crate::facade::counts_view(r@), games@.skip(i as int)),
            forall|k: int| 0 <= k < r@.len() ==> (#[trigger] r@[k]).1 <= 2 * i,
        decreases games@.len() - i,
    {
        proof {
            assert(games@.skip(i as int)[0] == games@[i as int]);
            assert(games@.skip(i as int).drop_first() =~= games@.skip(i as int + 1));
        }
        let g = &games[i].1;
        let black = player_id_of(&g.player_black);
        let white = player_id_of(&g.player_white);
        bump_count(&mut r, black, Ghost(2 * i as int));
        bump_count(&mut r, white, Ghost(2 * i as int + 1));
        i = i + 1;
    }
    proof {
        assert(games@.skip(games@.len() as int) =~= Seq::<(String, Game)>::empty());
    }
    r
}

/// A player id with at least one game behind it in the counts.
pub open spec fn has_games(counts: Seq<(i16, usize)>, id: i16) -> bool {
    exists|k: int| 0 <= k < counts.len() && (#[trigger] counts[k]).0 == id && counts[k].1 > 0
}

/// The alias-candidate pairs whose both ids still appear in the corpus.
pub open spec fn alias_filter(pairs: Seq<(i16, i16)>, counts: Seq<(i16, usize)>) -> Seq<
    (i16, i16),
>
    decreases pairs.len(),
{
    if pairs.len() == 0 {
        Seq::empty()
    } else {
        let rest = alias_filter(pairs.drop_last(), counts);
        if has_games(counts, pairs.last().0) && has_games(counts, pairs.last().1) {
            rest.push(pairs.last())
        } else {
            rest
        }
    }
}

fn id_has_games(counts: &Vec<(i16, usize)>, id: i16) -> (b: bool)
    ensures
        b == has_games(counts@, id),
{
    let mut k: usize = 0;
    while k < counts.len()
        invariant
            k <= counts@.len(),
            forall|t: int| 0 <= t < k ==> !((#[trigger] counts@[t]).0 == id && counts@[t].1 > 0),
        decreases counts@.len() - k,
    {
        if counts[k].0 == id && counts[k].1 > 0 {
            return true;
        }
        k = k + 1;
    }
    false
}

/// Keeps only the alias-candidate pairs whose both ids play at least one
/// game of the final corpus.
pub fn filter_alias_pairs(pairs: &Vec<(i16, i16)>, counts: &Vec<(i16, usize)>) -> (r: Vec<
    (i16, i16),
>)
    ensures
        r@ == alias_filter(pairs@, counts@),
{
    let mut r: Vec<(i16, i16)> = Vec::new();
    let mut i: usize = 0;
    while i < pairs.len()
        invariant
            i <= pairs@.len(),
            r@ == alias_filter(pairs@.subrange(0, i as int), counts@),
        decreases pairs@.len() - i,
    {
        proof {
            assert(pairs@.subrange(0, i + 1).drop_last() =~= pairs@.subrange(0, i as int));
            assert(pairs@.subrange(0, i + 1).last() == pairs@[i as int]);
        }
        let p = pairs[i];
        if id_has_games(counts, p.0) && id_has_games(counts, p.1) {
            r.push(p);
        }
        i = i + 1;
    }
    proof {
        assert(pairs@.subrange(0, pairs@.len() as int) =~= pairs@);
    }
    r
}

/// The name a player record contributes to the name artifacts: a resolved
/// player's display name, or a nonempty unresolved name.
pub open spec fn name_of(p: Player) -> Option<String> {
    match p {
        Player::Id(i, n) => Some(n),
        Player::Unknown(n) => if n@.len() > 0 {
            Some(n)
        } else {
            None
        },
    }
}

/// Only the unresolved nonempty names.
pub open spec fn unknown_name_of(p: Player) -> Option<String> {
    match p {
        Player::Id(i, n) => None,
        Player::Unknown(n) => if n@.len() > 0 {
            Some(n)
        } else {
            None
        },
    }
}

pub open spec fn names_has(acc: Seq<String>, n: Seq<char>) -> bool {
    exists|k: int| 0 <= k < acc.len() && (#[trigger] acc[k])@ == n
}

pub open spec fn names_add(acc: Seq<String>, o: Option<String>) -> Seq<String> {
    match o {
        Some(n) => if names_has(acc, n@) {
            acc
        } else {
            acc.push(n)
        },
        None => acc,
    }
}

/// The distinct names both sides of every game contribute, first seen
/// first; `unknown_only` keeps just the unresolved ones.
pub open spec fn names_fold(
    acc: Seq<String>,
    games: Seq<(String, Game)>,
    unknown_only: bool,
) -> Seq<String>
    decreases games.len(),
{
    if games.len() == 0 {
        acc
    } else {
        let b = if unknown_only {
            unknown_name_of(games[0].1.player_black)
        } else {
            name_of(games[0].1.player_black)
        };
        let w = if unknown_only {
            unknown_name_of(games[0].1.player_white)
        } else {
            name_of(games[0].1.player_white)
        };
        names_fold(names_add(names_add(acc, b), w), games.drop_first(), unknown_only)
    }
}

/// Stable insertion into a lexicographically ascending run of names.
pub open spec fn insert_name(s: Seq<String>, x: String) -> Seq<String>
    decreases s.len(),
{
    if s.len() == 0 {
        seq![x]
    } else if chars_le(s.last()@, x@) {
        s.push(x)
    } else {
        insert_name(s.drop_last(), x).push(s.last())
    }
}

/// The names in ascending lexicographic order, ties kept stable.
pub open spec fn sort_names_spec(s: Seq<String>) -> Seq<String>
    decreases s.len(),
{
    if s.len() == 0 {
        Seq::empty()
    } else {
        insert_name(sort_names_spec(s.drop_last()), s.last())
    }
}

proof fn lemma_insert_name_at(s: Seq<String>, x: String, p: int)
    requires
        0 <= p <= s.len(),
        forall|t: int| p <= t < s.len() ==> !chars_le((#[trigger] s[t])@, x@),
        p == 0 || chars_le(s[p - 1]@, x@),
    ensures
        insert_name(s, x) == s.subrange(0, p).push(x) + s.subrange(p, s.len() as int),
    decreases s.len() - p,
{
    if p == s.len() {
        if s.len() == 0 || chars_le(s.last()@, x@) {
            assert(insert_name(s, x) =~= s.subrange(0, p).push(x) + s.subrange(p, s.len() as int));
        }
    } else {
        lemma_insert_name_at(s.drop_last(), x, p);
        assert(s.drop_last().subrange(0, p) =~= s.subrange(0, p));
        assert(s.drop_last().subrange(p, s.len() - 1) =~= s.subrange(p, s.len() - 1));
        assert((s.subrange(0, p).push(x) + s.subrange(p, s.len() - 1)).push(s.last()) =~= s.subrange(
            0,
            p,
        ).push(x) + s.subrange(p, s.len() as int));
    }
}

/// Sorts names ascending, keeping equal names in their given order.
fn sort_names(mut v: Vec<String>) -> (r: Vec<String>)
    ensures
        r@ == sort_names_spec(v@),
{
    let ghost orig = v@;
    let mut out: Vec<String> = Vec::new();
    let mut i: usize = 0;
    let n = v.len();
    while i < n
        invariant
            i <= n,
            n == orig.len(),
            v@ == orig.skip(i as int),
            out@ == sort_names_spec(orig.subrange(0, i as int)),
        decreases n - i,
    {
        proof {
            assert(orig.subrange(0, i + 1).drop_last() =~= orig.subrange(0, i as int));
            assert(orig.subrange(0, i + 1).last() == orig[i as int]);
            assert(orig.skip(i as int)[0] == orig[i as int]);
        }
        let x = v.remove(0);
        proof {
            assert(v@ =~= orig.skip(i + 1));
        }
        let ghost xv = x;
        let mut p: usize = out.len();
        while p > 0 && !str_le(out[p - 1].as_str(), x.as_str())
            invariant
                p <= out@.len(),
                xv == x,
                forall|t: int| p <= t < out@.len() ==> !chars_le((#[trigger] out@[t])@, xv@),
            decreases p,
        {
            p = p - 1;
        }
        proof {
            lemma_insert_name_at(out@, xv, p as int);
        }
        out.insert(p, x);
        i = i + 1;
    }
    proof {
        assert(orig.subrange(0, orig.len() as int) =~= orig);
    }
    out
}

fn contains_name(acc: &Vec<String>, n: &str) -> (b: bool)
    ensures
        b == names_has(acc@, n@),
{
    let mut k: usize = 0;
    while k < acc.len()
        invariant
            k <= acc@.len(),
            forall|t: int| 0 <= t < k ==> (#[trigger] acc@[t])@ != n@,
        decreases acc@.len() - k,
    {
        if crate::text::str_eq(acc[k].as_str(), n) {
            return true;
        }
        k = k + 1;
    }
    false
}

fn add_name(acc: &mut Vec<String>, o: Option<&String>)
    ensures
        final(acc)@ == names_add(
            old(acc)@,
            match o {
                Some(n) => Some(*n),
                None => None,
            },
        ),
{
    match o {
        Some(n) => {
            if !contains_name(acc, n.as_str()) {
                acc.push(n.clone());
            }
        },
        None => {},
    }
}

/// The sorted distinct player names of the given games; with
/// `unknown_only` set, only the names no alias resolved.
pub fn collect_player_names(games: &Vec<(String, Game)>, unknown_only: bool) -> (r: Vec<String>)
    ensures
        r@ == sort_names_spec(names_fold(Seq::empty(), games@, unknown_only)),
{
    let ghost full = names_fold(Seq::empty(), games@, unknown_only);
    let mut acc: Vec<String> = Vec::new();
    let mut i: usize = 0;
    proof {
        assert(games@.skip(0) =~= games@);
    }
    while i < games.len()
        invariant
            i <= games@.len(),
            full == names_fold(Seq::empty(), games@, unknown_only),
            full == names_fold(acc@, games@.skip(i as int), unknown_only),
        decreases games@.len() - i,
    {
        proof {
            assert(games@.skip(i as int)[0] == games@[i as int]);
            assert(games@.skip(i as int).drop_first() =~= games@.skip(i as int + 1));
        }
        let g = &games[i].1;
        let black: Option<&String> = match &g.player_black {
            Player::Id(_, n) => if unknown_only {
                None
            } else {
                Some(n)
            },
            Player::Unknown(n) => if n.as_str().unicode_len() > 0 {
                Some(n)
            } else {
                None
            },
        };
        add_name(&mut acc, black);
        let w: Option<&String> = match &g.player_white {
            Player::Id(_, n) => if unknown_only {
                None
            } else {
                Some(n)
            },
            Player::Unknown(n) => if n.as_str().unicode_len() > 0 {
                Some(n)
            } else {
                None
            },
        };
        add_name(&mut acc, w);
        i = i + 1;
    }
    proof {
        assert(games@.skip(games@.len() as int) =~= Seq::<(String, Game)>::empty());
    }
    sort_names(acc)
}

} // verus!