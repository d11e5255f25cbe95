//! A parsed game record: metadata, the move list, and the per-move capture
//! index, together with its packed form.
use crate::board::{valid_position, Placement};
use crate::codec::{
    captures_blob_ok, captures_view, lemma_captures_round_trip, lemma_placements_round_trip,
    pack_captures, pack_placements, placements_blob_ok, spec_pack_captures, spec_pack_placements,
    spec_unpack_captures, spec_unpack_placements, unpack_captures, unpack_placements,
    valid_capture_pairs, CaptureEntry,
};
use crate::meta::{Player, Rank, Rules, SgfDate};
use crate::result::GameResult;
use vstd::prelude::*;

verus! {

/// One game of the corpus. The komi, when present, is carried as the bit
/// pattern of the record's 32-bit float, which the board logic never
/// inspects.
#[derive(Debug, Clone, PartialEq, Eq)]
pub struct Game {
    pub event: String,
    pub round: String,
    pub location: String,
    pub date: Option<SgfDate>,
    pub player_black: Player,
    pub player_white: Player,
    pub rank_black: Rank,
    pub rank_white: Rank,
    pub komi: Option<u32>,
    pub rules: Option<Rules>,
    pub result: GameResult,
    pub moves: Vec<Placement>,
    pub captures: Vec<CaptureEntry>,
}

impl CaptureEntry {
    /// A capture entry with the same move number and stones.
    pub fn duplicate(&self) -> (r: CaptureEntry)
        ensures
            r.move_number == self.move_number,
            r.stones@ == self.stones@,
    {
        let mut stones: Vec<Placement> = Vec::new();
        let mut i: usize = 0;
        while i < self.stones.len()
            invariant
                i <= self.stones@.len(),
                stones@ =~= self.stones@.subrange(0, i as int),
            decreases self.stones@.len() - i,
        {
            stones.push(self.stones[i]);
            i = i + 1;
        }
        proof {
            assert(stones@ =~= self.stones@);
        }
        CaptureEntry { move_number: self.move_number, stones }
    }
}

/// A capture list with the same mathematical content.
pub fn duplicate_captures(captures: &Vec<CaptureEntry>) -> (r: Vec<CaptureEntry>)
    ensures
        captures_view(r@) == captures_view(captures@),
{
    let mut r: Vec<CaptureEntry> = Vec::new();
    let mut i: usize = 0;
    while i < captures.len()
        invariant
            i <= captures@.len(),
            captures_view(r@) =~= captures_view(captures@.subrange(0, i as int)),
        decreases captures@.len() - i,
    {
        let ghost prev = r@;
        let dup = captures[i].duplicate();
        let ghost dv = dup;
        r.push(dup);
        proof {
            assert(r@ == prev.push(dv));
            assert(dv.move_number == captures@[i as int].move_number);
            assert(dv.stones@ == captures@[i as int].stones@);
            assert(captures_view(prev).len() == prev.len());
            assert(captures_view(captures@.subrange(0, i as int)).len() == i);
            assert(prev.len() == i);
            assert forall|k: int| 0 <= k < r@.len() implies #[trigger] captures_view(r@)[k]
                == captures_view(captures@.subrange(0, i + 1))[k] by {
                assert(captures_view(r@)[k] == (r@[k].move_number as int, r@[k].stones@));
                assert(captures@.subrange(0, i + 1)[k] == captures@[k]);
                assert(captures_view(captures@.subrange(0, i + 1))[k] == (
                    captures@[k].move_number as int,
                    captures@[k].stones@,
                ));
                if k < prev.len() {
                    assert(r@[k] == prev[k]);
                    assert(captures_view(prev)[k] == (prev[k].move_number as int, prev[k].stones@));
                    assert(captures_view(prev)[k] == captures_view(
                        captures@.subrange(0, i as int),
                    )[k]);
                    assert(captures_view(captures@.subrange(0, i as int))[k] == (
                        captures@.subrange(0, i as int)[k].move_number as int,
                        captures@.subrange(0, i as int)[k].stones@,
                    ));
                    assert(captures@.subrange(0, i as int)[k] == captures@[k]);
                } else {
                    assert(r@[k] == dv);
                }
            }
            assert(captures_view(r@) =~= captures_view(captures@.subrange(0, i + 1)));
        }
        i = i + 1;
    }
    proof {
        assert(captures@.subrange(0, captures@.len() as int) =~= captures@);
    }
    r
}

/// Two games that carry the same information: every metadata field equal
/// and the same moves and capture content.
pub open spec fn same_game(a: Game, b: Game) -> bool {
    &&& a.event == b.event
    &&& a.round == b.round
    &&& a.location == b.location
    &&& a.date == b.date
    &&& a.player_black == b.player_black
    &&& a.player_white == b.player_white
    &&& a.rank_black == b.rank_black
    &&& a.rank_white == b.rank_white
    &&& a.komi == b.komi
    &&& a.rules == b.rules
    &&& a.result == b.result
    &&& a.moves@ == b.moves@
    &&& captures_view(a.captures@) == captures_view(b.captures@)
}

/// An equal move list.
pub fn duplicate_moves(moves: &Vec<Placement>) -> (r: Vec<Placement>)
    ensures
        r@ == moves@,
{
    let mut r: Vec<Placement> = Vec::new();
    let mut i: usize = 0;
    while i < moves.len()
        invariant
            i <= moves@.len(),
            r@ =~= moves@.subrange(0, i as int),
        decreases moves@.len() - i,
    {
        r.push(moves[i]);
        i = i + 1;
    }
    proof {
        assert(r@ =~= moves@);
    }
    r
}

impl Game {
    /// A game carrying the same information.
    pub fn duplicate(&self) -> (r: Game)
        ensures
            same_game(r, *self),
    {
        let date = match &self.date {
            Some(d) => Some(d.duplicate()),
            None => None,
        };
        let rules = match &self.rules {
            Some(ru) => Some(ru.duplicate()),
            None => None,
        };
        Game {
            event: self.event.clone(),
            round: self.round.clone(),
            location: self.location.clone(),
            date,
            player_black: self.player_black.duplicate(),
            player_white: self.player_white.duplicate(),
            rank_black: self.rank_black.duplicate(),
            rank_white: self.rank_white.duplicate(),
            komi: self.komi,
            rules,
            result: self.result.duplicate(),
            moves: duplicate_moves(&self.moves),
            captures: duplicate_captures(&self.captures),
        }
    }
}

/// A game ready for the container: the metadata fields beside the
/// byte-packed moves and captures.
#[derive(Debug, Clone, PartialEq, Eq)]
pub struct PackedGame {
    pub name: String,
    pub event: String,
    pub round: String,
    pub location: String,
    pub date: Option<SgfDate>,
    pub player_black: Player,
    pub player_white: Player,
    pub rank_black: Rank,
    pub rank_white: Rank,
    pub komi: Option<u32>,
    pub rules: Option<Rules>,
    pub result: GameResult,
    pub moves: Vec<u8>,
    pub captures: Vec<u8>,
}

/// A game may be packed when its move and capture counts fit the two-byte
/// fields of the codec and all coordinates are on the board.
pub open spec fn packable_game(g: Game) -> bool {
    &&& g.moves@.len() <= 65535
    &&& valid_position(g.moves@)
    &&& g.captures@.len() <= 65535
    &&& valid_capture_pairs(captures_view(g.captures@))
}

/// The packed image of one named game: every metadata field carried over,
/// the moves and captures replaced by their byte encodings.
pub open spec fn packed_game_matches(name: Seq<char>, g: Game, p: PackedGame) -> bool {
    &&& p.name@ == name
    &&& p.event == g.event
    &&& p.round == g.round
    &&& p.location == g.location
    &&& p.date == g.date
    &&& p.player_black == g.player_black
    &&& p.player_white == g.player_white
    &&& p.rank_black == g.rank_black
    &&& p.rank_white == g.rank_white
    &&& p.komi == g.komi
    &&& p.rules == g.rules
    &&& p.result == g.result
    &&& p.moves@ == spec_pack_placements(g.moves@)
    &&& p.captures@ == spec_pack_captures(captures_view(g.captures@))
}

/// Packs every named game of a corpus, in order.
pub fn pack_games(games: &Vec<(String, Game)>) -> (r: Vec<PackedGame>)
    requires
        forall|i: int| 0 <= i < games@.len() ==> packable_game((#[trigger] games@[i]).1),
    ensures
        r@.len() == games@.len(),
        forall|i: int|
            0 <= i < games@.len() ==> packed_game_matches(
                games@[i].0@,
                games@[i].1,
                #[trigger] r@[i],
            ),
{
    let mut r: Vec<PackedGame> = Vec::new();
    let mut i: usize = 0;
    while i < games.len()
        invariant
            forall|k: int| 0 <= k < games@.len() ==> packable_game((#[trigger] games@[k]).1),
            i <= games@.len(),
            r@.len() == i,
            forall|k: int|
                0 <= k < i ==> packed_game_matches(games@[k].0@, games@[k].1, #[trigger] r@[k]),
        decreases games@.len() - i,
    {
        let (name, game) = &games[i];
        let moves = pack_placements(game.moves.as_slice());
        let captures = pack_captures(&game.captures);
        let date = match &game.date {
            Some(d) => Some(d.duplicate()),
            None => None,
        };
        let rules = match &game.rules {
            Some(ru) => Some(ru.duplicate()),
            None => None,
        };
        r.push(
            PackedGame {
                name: name.clone(),
                event: game.event.clone(),
                round: game.round.clone(),
                location: game.location.clone(),
                date,
                player_black: game.player_black.duplicate(),
                player_white: game.player_white.duplicate(),
                rank_black: game.rank_black.duplicate(),
                rank_white: game.rank_white.duplicate(),
                komi: game.komi,
                rules,
                result: game.result.duplicate(),
                moves,
                captures,
            },
        );
        i = i + 1;
    }
    r
}

/// A packed game whose two byte blobs are well formed.
pub open spec fn packed_blobs_ok(p: PackedGame) -> bool {
    placements_blob_ok(p.moves@) && captures_blob_ok(p.captures@)
}

/// The named game a packed entry decodes to: every metadata field carried
/// over, the byte blobs decoded.
pub open spec fn unpacked_game_matches(p: PackedGame, name: Seq<char>, g: Game) -> bool {
    &&& name == p.name@
    &&& g.event == p.event
    &&& g.round == p.round
    &&& g.location == p.location
    &&& g.date == p.date
    &&& g.player_black == p.player_black
    &&& g.player_white == p.player_white
    &&& g.rank_black == p.rank_black
    &&& g.rank_white == p.rank_white
    &&& g.komi == p.komi
    &&& g.rules == p.rules
    &&& g.result == p.result
    &&& g.moves@ == spec_unpack_placements(p.moves@)
    &&& captures_view(g.captures@) == spec_unpack_captures(p.captures@)
}

/// Unpacks every game of a packed corpus, in order.
pub fn unpack_games(packed: &Vec<PackedGame>) -> (r: Vec<(String, Game)>)
    requires
        forall|i: int| 0 <= i < packed@.len() ==> packed_blobs_ok(#[trigger] packed@[i]),
    ensures
        r@.len() == packed@.len(),
        forall|i: int|
            0 <= i < packed@.len() ==> unpacked_game_matches(
                packed@[i],
                (#[trigger] r@[i]).0@,
                r@[i].1,
            ),
{
    let mut r: Vec<(String, Game)> = Vec::new();
    let mut i: usize = 0;
    while i < packed.len()
        invariant
            forall|k: int| 0 <= k < packed@.len() ==> packed_blobs_ok(#[trigger] packed@[k]),
            i <= packed@.len(),
            r@.len() == i,
            forall|k: int|
                0 <= k < i ==> unpacked_game_matches(packed@[k], (#[trigger] r@[k]).0@, r@[k].1),
        decreases packed@.len() - i,
    {
        let p = &packed[i];
        let (moves, _used) = unpack_placements(p.moves.as_slice());
        let captures = unpack_captures(p.captures.as_slice());
        let date = match &p.date {
            Some(d) => Some(d.duplicate()),
            None => None,
        };
        let rules = match &p.rules {
            Some(ru) => Some(ru.duplicate()),
            None => None,
        };
        let game = Game {
            event: p.event.clone(),
            round: p.round.clone(),
            location: p.location.clone(),
            date,
            player_black: p.player_black.duplicate(),
            player_white: p.player_white.duplicate(),
            rank_black: p.rank_black.duplicate(),
            rank_white: p.rank_white.duplicate(),
            komi: p.komi,
            rules,
            result: p.result.duplicate(),
            moves,
            captures,
        };
        r.push((p.name.clone(), game));
        i = i + 1;
    }
    r
}

/// Packing then unpacking a packable game gives the game back: the blobs
/// are well formed and decode to the original moves and captures, and
/// every metadata field is carried through unchanged.
pub proof fn lemma_game_round_trip(name: Seq<char>, g: Game, p: PackedGame)
    requires
        packable_game(g),
        packed_game_matches(name, g, p),
    ensures
        packed_blobs_ok(p),
        forall|g2: Game| unpacked_game_matches(p, name, g2) ==> g2.moves@ == g.moves@
            && captures_view(g2.captures@) == captures_view(g.captures@) && g2.event == g.event
            && g2.round == g.round && g2.location == g.location && g2.date == g.date
            && g2.player_black == g.player_black && g2.player_white == g.player_white
            && g2.rank_black == g.rank_black && g2.rank_white == g.rank_white && g2.komi == g.komi
            && g2.rules == g.rules && g2.result == g.result,
{
    lemma_placements_round_trip(g.moves@);
    lemma_captures_round_trip(captures_view(g.captures@));
}

} // verus!
