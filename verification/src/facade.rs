//! The stateful search entry: a bounded cache of ranked results per query
//! position, player filtering, paging, player counts and next-move
//! suggestions.
use crate::board::{valid_position, Color, Placement, Point};
use crate::game::Game;
use crate::matcher::{
    first_attempt, match_position, corpus_ok, empty_result_matches, q_has_point,
    results_collected, sort_by_last, sort_by_score, SearchResult,
};
use crate::meta::Player;
use crate::symmetry::within_one_quadrant;
use vstd::prelude::*;

verus! {

/// Two results that carry the same information.
pub open spec fn result_same(a: SearchResult, b: SearchResult) -> bool {
    &&& a.path == b.path
    &&& a.score == b.score
    &&& a.last_move_matched == b.last_move_matched
    &&& a.rotation == b.rotation
    &&& a.is_inverted == b.is_inverted
    &&& a.is_mirrored == b.is_mirrored
    &&& a.all_empty_correctly_within == b.all_empty_correctly_within
    &&& a.moves@ == b.moves@
    &&& a.moves_transformed@ == b.moves_transformed@
    &&& a.event == b.event
    &&& a.round == b.round
    &&& a.location == b.location
    &&& a.date == b.date
    &&& a.player_black == b.player_black
    &&& a.player_white == b.player_white
    &&& a.rank_black == b.rank_black
    &&& a.rank_white == b.rank_white
    &&& a.komi == b.komi
    &&& a.rules == b.rules
    &&& a.result == b.result
}

pub open spec fn results_same(a: Seq<SearchResult>, b: Seq<SearchResult>) -> bool {
    a.len() == b.len() && forall|i: int| 0 <= i < a.len() ==> result_same(a[i], #[trigger] b[i])
}

/// A correct answer for a query against a corpus: every game for an empty
/// query, otherwise the per-game first-symmetry results ordered by score
/// descending then earliest matched move first.
pub open spec fn valid_search_results(
    games: Seq<(String, Game)>,
    q: Seq<Placement>,
    rs: Seq<SearchResult>,
) -> bool {
    if q.len() == 0 {
        rs.len() == games.len() && forall|i: int|
            0 <= i < games.len() ==> empty_result_matches(
                (#[trigger] games[i]).0@,
                games[i].1,
                rs[i],
            )
    } else {
        exists|mid: Seq<SearchResult>|
            results_collected(q, within_one_quadrant(q), games, mid) && results_same(
                rs,
                sort_by_last(sort_by_score(mid)),
            )
    }
}

/// An information-preserving copy of one result.
fn duplicate_result(r: &SearchResult) -> (d: SearchResult)
    ensures
        result_same(*r, d),
{
    let date = match &r.date {
        Some(x) => Some(x.duplicate()),
        None => None,
    };
    let rules = match &r.rules {
        Some(x) => Some(x.duplicate()),
        None => None,
    };
    SearchResult {
        path: r.path.clone(),
        score: r.score,
        last_move_matched: r.last_move_matched,
        rotation: r.rotation,
        is_inverted: r.is_inverted,
        is_mirrored: r.is_mirrored,
        all_empty_correctly_within: r.all_empty_correctly_within,
        moves: crate::game::duplicate_moves(&r.moves),
        moves_transformed: crate::game::duplicate_moves(&r.moves_transformed),
        event: r.event.clone(),
        round: r.round.clone(),
        location: r.location.clone(),
        date,
        player_black: r.player_black.duplicate(),
        player_white: r.player_white.duplicate(),
        rank_black: r.rank_black.duplicate(),
        rank_white: r.rank_white.duplicate(),
        komi: r.komi,
        rules,
        result: r.result.duplicate(),
    }
}

/// An information-preserving copy of a result list.
fn duplicate_results(v: &Vec<SearchResult>) -> (d: Vec<SearchResult>)
    ensures
        results_same(v@, d@),
{
    let mut d: Vec<SearchResult> = Vec::new();
    let mut i: usize = 0;
    while i < v.len()
        invariant
            i <= v@.len(),
            d@.len() == i,
            forall|k: int| 0 <= k < i ==> result_same(v@[k], #[trigger] d@[k]),
        decreases v@.len() - i,
    {
        d.push(duplicate_result(&v[i]));
        i = i + 1;
    }
    d
}

/// The search module: the loaded corpus and a bounded most-recently-used
/// cache of ranked results per query position. Opaque as a whole because
/// of the cache it holds; its corpus and cache contents are named below.
#[verifier::external_body]
pub struct WasmSearch {
    game_data: Vec<(String, Game)>,
    position_cache: lru::LruCache<Vec<Placement>, Vec<SearchResult>>,
}

/// The loaded corpus of the module.
pub uninterp spec fn corpus_of(ws: &WasmSearch) -> Seq<(String, Game)>;

/// What the module's cache holds: the stored result list for each stored
/// query position.
pub uninterp spec fn cache_map(ws: &WasmSearch) -> Map<Seq<Placement>, Seq<SearchResult>>;

/// Relies on lru::LruCache::new: a module starts with the given corpus and
/// an empty cache, bounded at one thousand positions.
#[verifier::external_body]
fn ws_new(game_data: Vec<(String, Game)>) -> (s: WasmSearch)
    ensures
        corpus_of(&s) == game_data@,
        forall|k: Seq<Placement>| !cache_map(&s).contains_key(k),
{
    WasmSearch {
        game_data,
        position_cache: lru::LruCache::new(std::num::NonZeroUsize::new(1000).unwrap()),
    }
}

/// The module's own corpus field, read back out of the opaque struct.
#[verifier::external_body]
fn ws_games<'a>(ws: &'a WasmSearch) -> (r: &'a Vec<(String, Game)>)
    ensures
        r@ == corpus_of(ws),
{
    &ws.game_data
}

/// Relies on lru::LruCache::get: the value stored for the key, if any;
/// only recency changes, never the corpus or the stored pairs.
#[verifier::external_body]
fn cache_get<'a>(ws: &'a mut WasmSearch, key: &Vec<Placement>) -> (r: Option<
    &'a Vec<SearchResult>,
>)
    ensures
        cache_map(final(ws)) == cache_map(old(ws)),
        corpus_of(final(ws)) == corpus_of(old(ws)),
        match r {
            Some(v) => cache_map(old(ws)).contains_key(key@) && v@ == cache_map(old(ws))[key@],
            None => !cache_map(old(ws)).contains_key(key@),
        },
{
    ws.position_cache.get(key)
}

/// Relies on lru::LruCache::put: stores the pair; a full cache may also
/// drop its least recently used entry, so every surviving key other than
/// the stored one keeps its old value. The corpus is untouched.
#[verifier::external_body]
fn cache_put(ws: &mut WasmSearch, key: Vec<Placement>, value: Vec<SearchResult>)
    ensures
        corpus_of(final(ws)) == corpus_of(old(ws)),
        cache_map(final(ws)).contains_key(key@),
        cache_map(final(ws))[key@] == value@,
        forall|k: Seq<Placement>|
            #[trigger] cache_map(final(ws)).contains_key(k) ==> k == key@ || (cache_map(
                old(ws),
            ).contains_key(k) && cache_map(final(ws))[k] == cache_map(old(ws))[k]),
{
    ws.position_cache.put(key, value);
}

impl WasmSearch {
    /// A searchable corpus whose cache holds only correct answers.
    pub open spec fn wf(&self) -> bool {
        &&& corpus_ok(corpus_of(self))
        &&& forall|k: Seq<Placement>|
            #[trigger] cache_map(self).contains_key(k) ==> valid_search_results(
                corpus_of(self),
                k,
                cache_map(self)[k],
            )
    }

    /// Wraps a loaded corpus for searching, with an empty cache.
    pub fn new(game_data: Vec<(String, Game)>) -> (s: WasmSearch)
        requires
            corpus_ok(game_data@),
        ensures
            s.wf(),
            corpus_of(&s) == game_data@,
    {
        ws_new(game_data)
    }

    /// The loaded corpus.
    pub fn games<'a>(&'a self) -> (r: &'a Vec<(String, Game)>)
        ensures
            r@ == corpus_of(self),
    {
        ws_games(self)
    }

    /// Ranked results for a query, answered from the cache when the same
    /// query was asked before, and remembered otherwise.
    pub fn match_position_cached(&mut self, position: &Vec<Placement>) -> (r: Vec<SearchResult>)
        requires
            old(self).wf(),
            valid_position(position@),
            position@.len() <= 400,
        ensures
            final(self).wf(),
            corpus_of(final(self)) == corpus_of(old(self)),
            valid_search_results(corpus_of(final(self)), position@, r@),
    {
        let ghost g0 = corpus_of(self);
        let ghost m0 = cache_map(self);
        let cached = cache_get(self, position);
        match cached {
            Some(v) => {
                let d = duplicate_results(v);
                proof {
                    lemma_results_same_valid(g0, position@, m0[position@], d@);
                }
                d
            },
            None => {
                let games = ws_games(self);
                let rs = match_position(games, position.as_slice());
                let key = crate::matcher::copy_placements(position.as_slice());
                let stored = duplicate_results(&rs);
                proof {
                    lemma_results_same_valid(g0, position@, rs@, stored@);
                }
                cache_put(self, key, stored);
                rs
            },
        }
    }
}

/// A result list that carries the same information as a correct answer is
/// itself a correct answer.
proof fn lemma_results_same_valid(
    games: Seq<(String, Game)>,
    q: Seq<Placement>,
    a: Seq<SearchResult>,
    b: Seq<SearchResult>,
)
    requires
        valid_search_results(games, q, a),
        results_same(a, b),
    ensures
        valid_search_results(games, q, b),
{
    if q.len() == 0 {
        assert forall|i: int| 0 <= i < games.len() implies empty_result_matches(
            (#[trigger] games[i]).0@,
            games[i].1,
            b[i],
        ) by {
            assert(result_same(a[i], b[i]));
        }
    } else {
        let mid = choose|mid: Seq<SearchResult>|
            results_collected(q, within_one_quadrant(q), games, mid) && results_same(
                a,
                sort_by_last(sort_by_score(mid)),
            );
        assert(results_same(b, sort_by_last(sort_by_score(mid)))) by {
            assert forall|i: int| 0 <= i < b.len() implies result_same(
                b[i],
                #[trigger] sort_by_last(sort_by_score(mid))[i],
            ) by {
                assert(result_same(a[i], b[i]));
                assert(result_same(a[i], sort_by_last(sort_by_score(mid))[i]));
            }
        }
    }
}


/// A request that a given player id takes part, on a specific side or on
/// either.
#[derive(Debug, Clone, Copy, PartialEq, Eq, Structural)]
pub struct PlayerFilter {
    pub player_id: i16,
    pub color: Option<Color>,
}

/// One suggested continuation: the point and how many matched games went
/// on there.
#[derive(Debug, Clone, Copy, PartialEq, Eq, Structural)]
pub struct NextMove {
    pub point: Point,
    pub game_count: usize,
}

pub open spec fn player_has_id(p: Player, id: i16) -> bool {
    match p {
        Player::Id(i, n) => i == id,
        Player::Unknown(n) => false,
    }
}

/// One filter's test on a result.
pub open spec fn filter_passes(r: SearchResult, f: PlayerFilter) -> bool {
    match f.color {
        None => player_has_id(r.player_black, f.player_id) || player_has_id(
            r.player_white,
            f.player_id,
        ),
        Some(Color::Black) => player_has_id(r.player_black, f.player_id),
        Some(Color::White) => player_has_id(r.player_white, f.player_id),
    }
}

pub open spec fn passes_all(r: SearchResult, fs: Seq<PlayerFilter>) -> bool {
    forall|i: int| 0 <= i < fs.len() ==> filter_passes(r, #[trigger] fs[i])
}

/// The results that satisfy every filter, in order.
pub open spec fn spec_filtered(rs: Seq<SearchResult>, fs: Seq<PlayerFilter>) -> Seq<SearchResult>
    decreases rs.len(),
{
    if rs.len() == 0 {
        Seq::empty()
    } else {
        let rest = spec_filtered(rs.drop_last(), fs);
        if passes_all(rs.last(), fs) {
            rest.push(rs.last())
        } else {
            rest
        }
    }
}

/// The first accumulator entry for a placement.
pub open spec fn nm_find(acc: Seq<(Placement, (int, int))>, key: Placement) -> Option<int>
    decreases acc.len(),
{
    if acc.len() == 0 {
        None
    } else if acc[0].0 == key {
        Some(0int)
    } else {
        match nm_find(acc.drop_first(), key) {
            Some(i) => Some(i + 1),
            None => None,
        }
    }
}

/// Adds one candidate continuation: a seen placement gains score and one
/// game, a new one starts its entry.
pub open spec fn nm_upsert(acc: Seq<(Placement, (int, int))>, key: Placement, add: int) -> Seq<
    (Placement, (int, int)),
> {
    match nm_find(acc, key) {
        Some(i) => acc.update(i, (key, (acc[i].1.0 + add, acc[i].1.1 + 1))),
        None => acc.push((key, (add, 1))),
    }
}

/// One look-ahead step of one result: the move after the matched prefix
/// (one or two ahead), skipped when it sits on a query point; its color is
/// inverted back when the match was color-inverted.
pub open spec fn nm_one(
    acc: Seq<(Placement, (int, int))>,
    position: Seq<Placement>,
    r: SearchResult,
    i: int,
    mult: int,
) -> Seq<(Placement, (int, int))> {
    if r.last_move_matched + i < r.moves_transformed@.len() {
        let mv = r.moves_transformed@[r.last_move_matched + i];
        if !q_has_point(position, mv.point) {
            let key = if r.is_inverted {
                crate::symmetry::switched_placement(mv)
            } else {
                mv
            };
            nm_upsert(acc, key, mult + 2 - i)
        } else {
            acc
        }
    } else {
        acc
    }
}

/// What one result contributes: nothing unless its surroundings were clean,
/// with full-position matches weighted a hundredfold.
pub open spec fn nm_result(
    acc: Seq<(Placement, (int, int))>,
    position: Seq<Placement>,
    r: SearchResult,
) -> Seq<(Placement, (int, int))> {
    let mult = (if r.last_move_matched == position.len() - 1 {
        100int
    } else {
        1int
    }) * (r.all_empty_correctly_within as int);
    if mult > 0 {
        nm_one(nm_one(acc, position, r, 1, mult), position, r, 2, mult)
    } else {
        acc
    }
}

pub open spec fn nm_fold(
    acc: Seq<(Placement, (int, int))>,
    position: Seq<Placement>,
    results: Seq<SearchResult>,
) -> Seq<(Placement, (int, int))>
    decreases results.len(),
{
    if results.len() == 0 {
        acc
    } else {
        nm_fold(nm_result(acc, position, results[0]), position, results.drop_first())
    }
}

/// The accumulated entries of the asked-for color, in first-touch order.
pub open spec fn nm_color_filter(acc: Seq<(Placement, (int, int))>, c: Color) -> Seq<
    (Placement, (int, int)),
>
    decreases acc.len(),
{
    if acc.len() == 0 {
        Seq::empty()
    } else {
        let rest = nm_color_filter(acc.drop_last(), c);
        if acc.last().0.color == c {
            rest.push(acc.last())
        } else {
            rest
        }
    }
}

pub open spec fn pair_ge(a: (int, int), b: (int, int)) -> bool {
    a.0 > b.0 || (a.0 == b.0 && a.1 >= b.1)
}

/// Stable insertion into a run ordered by score then count, descending.
pub open spec fn nm_insert(s: Seq<(Placement, (int, int))>, x: (Placement, (int, int))) -> Seq<
    (Placement, (int, int)),
>
    decreases s.len(),
{
    if s.len() == 0 {
        seq![x]
    } else if pair_ge(s.last().1, x.1) {
        s.push(x)
    } else {
        nm_insert(s.drop_last(), x).push(s.last())
    }
}

pub open spec fn nm_sort(s: Seq<(Placement, (int, int))>) -> Seq<(Placement, (int, int))>
    decreases s.len(),
{
    if s.len() == 0 {
        Seq::empty()
    } else {
        nm_insert(nm_sort(s.drop_last()), s.last())
    }
}

/// The suggestions kept: at least fifty games behind each point.
pub open spec fn nm_emit(s: Seq<(Placement, (int, int))>) -> Seq<NextMove>
    decreases s.len(),
{
    if s.len() == 0 {
        Seq::empty()
    } else {
        let rest = nm_emit(s.drop_last());
        if s.last().1.1 >= 50 {
            rest.push(NextMove { point: s.last().0.point, game_count: s.last().1.1 as usize })
        } else {
            rest
        }
    }
}

/// The whole suggestion list for a result set.
pub open spec fn spec_next_moves(
    results: Seq<SearchResult>,
    position: Seq<Placement>,
    c: Color,
) -> Seq<NextMove> {
    nm_emit(nm_sort(nm_color_filter(nm_fold(Seq::empty(), position, results), c)))
}

proof fn lemma_nm_find_index(acc: Seq<(Placement, (int, int))>, key: Placement, i: int)
    requires
        0 <= i < acc.len(),
        acc[i].0 == key,
        forall|k: int| 0 <= k < i ==> (#[trigger] acc[k]).0 != key,
    ensures
        nm_find(acc, key) == Some(i),
    decreases i,
{
    if i > 0 {
        let d = acc.drop_first();
        assert(d =~= acc.subrange(1, acc.len() as int));
        lemma_nm_find_index(d, key, i - 1);
    }
}

proof fn lemma_nm_find_none(acc: Seq<(Placement, (int, int))>, key: Placement)
    requires
        forall|k: int| 0 <= k < acc.len() ==> (#[trigger] acc[k]).0 != key,
    ensures
        nm_find(acc, key) is None,
    decreases acc.len(),
{
    if acc.len() > 0 {
        let d = acc.drop_first();
        assert(d =~= acc.subrange(1, acc.len() as int));
        lemma_nm_find_none(d, key);
    }
}

proof fn lemma_nm_insert_at(s: Seq<(Placement, (int, int))>, x: (Placement, (int, int)), p: int)
    requires
        0 <= p <= s.len(),
        forall|t: int| p <= t < s.len() ==> !pair_ge((#[trigger] s[t]).1, x.1),
        p == 0 || pair_ge(s[p - 1].1, x.1),
    ensures
        nm_insert(s, x) == s.subrange(0, p).push(x) + s.subrange(p, s.len() as int),
    decreases s.len() - p,
{
    if p == s.len() {
        if s.len() == 0 || pair_ge(s.last().1, x.1) {
            assert(nm_insert(s, x) =~= s.subrange(0, p).push(x) + s.subrange(p, s.len() as int));
        }
    } else {
        lemma_nm_insert_at(s.drop_last(), x, p);
        assert(s.drop_last().subrange(0, p) =~= s.subrange(0, p));
        assert(s.drop_last().subrange(p, s.len() - 1) =~= s.subrange(p, s.len() - 1));
        assert((s.subrange(0, p).push(x) + s.subrange(p, s.len() - 1)).push(s.last()) =~= s.subrange(
            0,
            p,
        ).push(x) + s.subrange(p, s.len() as int));
    }
}

/// Accumulates, orders and emits the suggested continuations of a result
/// set: the one or two moves after each clean match, weighted, and only
/// points that at least fifty matched games continue on.
#[verifier::rlimit(100)]
pub fn get_next_moves(results: &Vec<SearchResult>, position: &[Placement], next_color: Color) -> (r:
    Vec<NextMove>)
    requires
        results@.len() <= 100000,
    ensures
        r@ == spec_next_moves(results@, position@, next_color),
{
    let ghost full = nm_fold(Seq::empty(), position@, results@);
    let mut acc: Vec<(Placement, (u64, u64))> = Vec::new();
    let ghost accv = Seq::<(Placement, (int, int))>::empty();
    let mut t: usize = 0;
    let ghost accview = |a: Seq<(Placement, (u64, u64))>|
        a.map_values(|e: (Placement, (u64, u64))| (e.0, (e.1.0 as int, e.1.1 as int)));
    proof {
        assert(results@.skip(0) =~= results@);
        assert(accview(acc@) =~= Seq::<(Placement, (int, int))>::empty());
    }
    while t < results.len()
        invariant
            t <= results@.len(),
            results@.len() <= 100000,
            accview == (|a: Seq<(Placement, (u64, u64))>|
                a.map_values(
                    |e: (Placement, (u64, u64))| (e.0, (e.1.0 as int, e.1.1 as int)),
                )),
            full == nm_fold(Seq::empty(), position@, results@),
            full == nm_fold(accview(acc@), position@, results@.skip(t as int)),
            forall|k: int|
                0 <= k < acc@.len() ==> (#[trigger] acc@[k]).1.0 <= 51002 * t && acc@[k].1.1 <= 2
                    * t,
        decreases results@.len() - t,
    {
        proof {
            assert(results@.skip(t as int)[0] == results@[t as int]);
            assert(results@.skip(t as int).drop_first() =~= results@.skip(t as int + 1));
        }
        let r = &results[t];
        let mut mult: usize = if position.len() >= 1 && r.last_move_matched == position.len() - 1 {
            100
        } else {
            1
        };
        proof {
            if position@.len() == 0 {
                assert(r.last_move_matched != position@.len() - 1);
            }
        }
        mult = mult * (r.all_empty_correctly_within as usize);
        if mult > 0 {
            let ghost acc_in = accview(acc@);
            let mut i: usize = 1;
            while i <= 2
                invariant
                    1 <= i <= 3,
                    t < results@.len() <= 100000,
                    r == &results@[t as int],
                    mult == (if r.last_move_matched == position@.len() - 1 {
                        100int
                    } else {
                        1int
                    }) * (r.all_empty_correctly_within as int),
                    0 < mult <= 25500,
                    accview == (|a: Seq<(Placement, (u64, u64))>|
                        a.map_values(
                            |e: (Placement, (u64, u64))| (e.0, (e.1.0 as int, e.1.1 as int)),
                        )),
                    i == 1 ==> accview(acc@) == acc_in,
                    i == 2 ==> accview(acc@) == nm_one(acc_in, position@, *r, 1, mult as int),
                    i == 3 ==> accview(acc@) == nm_one(
                        nm_one(acc_in, position@, *r, 1, mult as int),
                        position@,
                        *r,
                        2,
                        mult as int,
                    ),
                    forall|k: int|
                        0 <= k < acc@.len() ==> (#[trigger] acc@[k]).1.0 <= 51002 * t + 25501 * (i - 1)
                            && acc@[k].1.1 <= 2 * t + (i - 1),
                decreases 3 - i,
            {
                let ghost acc_round = accview(acc@);
                let ml = r.moves_transformed.len();
                if r.last_move_matched < ml && i < ml - r.last_move_matched {
                    let mv = r.moves_transformed[r.last_move_matched + i];
                    if !crate::matcher::position_has_point(position, mv.point) {
                        let key = if r.is_inverted {
                            Placement {
                                color: crate::symmetry::switch_one(mv.color),
                                point: mv.point,
                            }
                        } else {
                            mv
                        };
                        let add: u64 = (mult + 2 - i) as u64;
                        // Find or create the entry for this placement.
                        let mut j: usize = 0;
                        let mut found: Option<usize> = None;
                        while j < acc.len() && found.is_none()
                            invariant
                                j <= acc@.len(),
                                found is None ==> forall|k: int|
                                    0 <= k < j ==> (#[trigger] acc@[k]).0 != key,
                                match found {
                                    Some(h) => h < acc@.len() && acc@[h as int].0 == key && forall|
                                        k: int,
                                    |
                                        0 <= k < h ==> (#[trigger] acc@[k]).0 != key,
                                    None => true,
                                },
                            decreases acc@.len() - j, (if found is None { 1int } else { 0int }),
                        {
                            if acc[j].0 == key {
                                found = Some(j);
                            } else {
                                j = j + 1;
                            }
                        }
                        match found {
                            Some(h) => {
                                proof {
                                    assert(accview(acc@)[h as int] == (
                                        acc@[h as int].0,
                                        (acc@[h as int].1.0 as int, acc@[h as int].1.1 as int),
                                    ));
                                    assert forall|k: int| 0 <= k < h implies (
                                    #[trigger] accview(acc@)[k]).0 != key by {
                                        assert(accview(acc@)[k].0 == acc@[k].0);
                                    }
                                    lemma_nm_find_index(accview(acc@), key, h as int);
                                }
                                let ghost before = accview(acc@);
                                let entry = acc.remove(h);
                                acc.insert(h, (key, (entry.1.0 + add, entry.1.1 + 1u64)));
                                proof {
                                    assert(accview(acc@) =~= nm_upsert(before, key, add as int));
                                }
                            },
                            None => {
                                proof {
                                    assert forall|k: int| 0 <= k < accview(acc@).len() implies (
                                    #[trigger] accview(acc@)[k]).0 != key by {
                                        assert(accview(acc@)[k].0 == acc@[k].0);
                                    }
                                    lemma_nm_find_none(accview(acc@), key);
                                }
                                let ghost before = accview(acc@);
                                acc.push((key, (add, 1u64)));
                                proof {
                                    assert(accview(acc@) =~= nm_upsert(before, key, add as int));
                                }
                            },
                        }
                        proof {
                            assert(accview(acc@) == nm_one(
                                acc_round,
                                position@,
                                *r,
                                i as int,
                                mult as int,
                            ));
                        }
                    } else {
                        proof {
                            assert(accview(acc@) == nm_one(
                                acc_round,
                                position@,
                                *r,
                                i as int,
                                mult as int,
                            ));
                        }
                    }
                } else {
                    proof {
                        assert(accview(acc@) == nm_one(
                            acc_round,
                            position@,
                            *r,
                            i as int,
                            mult as int,
                        ));
                    }
                }
                i = i + 1;
            }
            proof {
                assert(accview(acc@) == nm_result(acc_in, position@, results@[t as int]));
            }
        } else {
            proof {
                assert(accview(acc@) == nm_result(accview(acc@), position@, results@[t as int]));
            }
        }
        t = t + 1;
    }
    proof {
        assert(results@.skip(results@.len() as int) =~= Seq::<SearchResult>::empty());
        assert(accview(acc@) == full);
        assert(forall|k: int| 0 <= k < acc@.len() ==> (#[trigger] acc@[k]).1.1 <= 200000);
    }

    // Keep the asked-for color.
    let mut kept: Vec<(Placement, (u64, u64))> = Vec::new();
    let mut u: usize = 0;
    while u < acc.len()
        invariant
            u <= acc@.len(),
            accview == (|a: Seq<(Placement, (u64, u64))>|
                a.map_values(
                    |e: (Placement, (u64, u64))| (e.0, (e.1.0 as int, e.1.1 as int)),
                )),
            accview(kept@) == nm_color_filter(accview(acc@).subrange(0, u as int), next_color),
            forall|k: int| 0 <= k < acc@.len() ==> (#[trigger] acc@[k]).1.1 <= 200000,
            forall|k: int| 0 <= k < kept@.len() ==> (#[trigger] kept@[k]).1.1 <= 200000,
        decreases acc@.len() - u,
    {
        proof {
            assert(accview(acc@).subrange(0, u + 1).drop_last() =~= accview(acc@).subrange(
                0,
                u as int,
            ));
            assert(accview(acc@).subrange(0, u + 1).last() == accview(acc@)[u as int]);
        }
        let e = acc[u];
        if e.0.color == next_color {
            let ghost before = accview(kept@);
            kept.push(e);
            proof {
                assert(accview(kept@) =~= before.push(accview(acc@)[u as int]));
            }
        }
        u = u + 1;
    }
    proof {
        assert(accview(acc@).subrange(0, acc@.len() as int) =~= accview(acc@));
    }

    // Order by score then count, descending, stably.
    let ghost kept_full = accview(kept@);
    let mut sorted: Vec<(Placement, (u64, u64))> = Vec::new();
    let mut w: usize = 0;
    let kn = kept.len();
    while w < kn
        invariant
            w <= kn,
            kn == kept@.len(),
            kept@.map_values(
                |e: (Placement, (u64, u64))| (e.0, (e.1.0 as int, e.1.1 as int)),
            ) == kept_full,
            accview == (|a: Seq<(Placement, (u64, u64))>|
                a.map_values(
                    |e: (Placement, (u64, u64))| (e.0, (e.1.0 as int, e.1.1 as int)),
                )),
            accview(sorted@) == nm_sort(kept_full.subrange(0, w as int)),
            forall|k: int| 0 <= k < kept@.len() ==> (#[trigger] kept@[k]).1.1 <= 200000,
            forall|k: int| 0 <= k < sorted@.len() ==> (#[trigger] sorted@[k]).1.1 <= 200000,
        decreases kn - w,
    {
        proof {
            assert(kept_full.subrange(0, w + 1).drop_last() =~= kept_full.subrange(0, w as int));
            assert(kept_full.subrange(0, w + 1).last() == kept_full[w as int]);
            assert(kept_full[w as int] == (kept@[w as int].0, (kept@[w as int].1.0 as int, kept@[w as int].1.1 as int)));
        }
        let x = kept[w];
        let ghost xv = (x.0, (x.1.0 as int, x.1.1 as int));
        let mut p: usize = sorted.len();
        while p > 0 && !(sorted[p - 1].1.0 > x.1.0 || (sorted[p - 1].1.0 == x.1.0 && sorted[p
            - 1].1.1 >= x.1.1))
            invariant
                p <= sorted@.len(),
                accview == (|a: Seq<(Placement, (u64, u64))>|
                    a.map_values(
                        |e: (Placement, (u64, u64))| (e.0, (e.1.0 as int, e.1.1 as int)),
                    )),
                xv == (x.0, (x.1.0 as int, x.1.1 as int)),
                forall|k: int|
                    p <= k < sorted@.len() ==> !pair_ge((#[trigger] accview(sorted@)[k]).1, xv.1),
            decreases p,
        {
            proof {
                assert(accview(sorted@)[p - 1].1 == (sorted@[p - 1].1.0 as int, sorted@[p
                    - 1].1.1 as int));
                assert(!pair_ge(accview(sorted@)[p - 1].1, xv.1));
            }
            p = p - 1;
        }
        proof {
            if p > 0 {
                assert(accview(sorted@)[p - 1].1 == (sorted@[p - 1].1.0 as int, sorted@[p
                    - 1].1.1 as int));
            }
            lemma_nm_insert_at(accview(sorted@), xv, p as int);
        }
        let ghost before = accview(sorted@);
        sorted.insert(p, x);
        proof {
            assert(accview(sorted@) =~= before.subrange(0, p as int).push(xv) + before.subrange(
                p as int,
                before.len() as int,
            ));
        }
        w = w + 1;
    }
    proof {
        assert(kept_full.subrange(0, kept_full.len() as int) =~= kept_full);
    }

    // Emit the points at least fifty games continue on.
    let mut out: Vec<NextMove> = Vec::new();
    let mut v: usize = 0;
    while v < sorted.len()
        invariant
            v <= sorted@.len(),
            accview == (|a: Seq<(Placement, (u64, u64))>|
                a.map_values(
                    |e: (Placement, (u64, u64))| (e.0, (e.1.0 as int, e.1.1 as int)),
                )),
            out@ == nm_emit(accview(sorted@).subrange(0, v as int)),
            forall|k: int| 0 <= k < sorted@.len() ==> (#[trigger] sorted@[k]).1.1 <= 200000,
        decreases sorted@.len() - v,
    {
        proof {
            assert(accview(sorted@).subrange(0, v + 1).drop_last() =~= accview(sorted@).subrange(
                0,
                v as int,
            ));
            assert(accview(sorted@).subrange(0, v + 1).last() == accview(sorted@)[v as int]);
            assert(accview(sorted@)[v as int] == (sorted@[v as int].0, (sorted@[v as int].1.0 as int, sorted@[v as int].1.1 as int)));
        }
        let e = sorted[v];
        if e.1.1 >= 50 {
            out.push(NextMove { point: e.0.point, game_count: e.1.1 as usize });
        }
        v = v + 1;
    }
    proof {
        assert(accview(sorted@).subrange(0, sorted@.len() as int) =~= accview(sorted@));
    }
    out
}


/// What one search call answers: the ranked results of the asked page,
/// suggestion and count summaries, and the paging bookkeeping.
pub struct SearchOutput {
    pub num_results: usize,
    pub next_moves: Vec<NextMove>,
    pub results: Vec<SearchResult>,
    pub total_pages: usize,
    pub current_page: usize,
    pub player_counts: Vec<(i16, usize)>,
}

/// One more game counted for a player id, entries in first-seen order.
pub open spec fn counts_bump(acc: Seq<(i16, int)>, id: i16) -> Seq<(i16, int)>
    decreases acc.len(),
{
    if acc.len() == 0 {
        seq![(id, 1int)]
    } else if acc[0].0 == id {
        seq![(acc[0].0, acc[0].1 + 1)] + acc.drop_first()
    } else {
        seq![acc[0]] + counts_bump(acc.drop_first(), id)
    }
}

pub open spec fn counts_add_player(acc: Seq<(i16, int)>, p: Player, excluded: Seq<i16>) -> Seq<
    (i16, int),
> {
    match p {
        Player::Id(id, n) => if !excluded.contains(id) {
            counts_bump(acc, id)
        } else {
            acc
        },
        Player::Unknown(n) => acc,
    }
}

/// Counts both players of every surviving result, skipping the ids the
/// caller already filtered on.
pub open spec fn counts_fold(
    acc: Seq<(i16, int)>,
    rs: Seq<SearchResult>,
    excluded: Seq<i16>,
) -> Seq<(i16, int)>
    decreases rs.len(),
{
    if rs.len() == 0 {
        acc
    } else {
        counts_fold(
            counts_add_player(
                counts_add_player(acc, rs[0].player_black, excluded),
                rs[0].player_white,
                excluded,
            ),
            rs.drop_first(),
            excluded,
        )
    }
}

pub open spec fn counts_view(a: Seq<(i16, usize)>) -> Seq<(i16, int)> {
    a.map_values(|e: (i16, usize)| (e.0, e.1 as int))
}

/// Every result of a collection run is one game of the corpus.
proof fn lemma_collected_len(
    q: Seq<Placement>,
    iq: bool,
    games: Seq<(String, Game)>,
    rs: Seq<SearchResult>,
)
    requires
        results_collected(q, iq, games, rs),
    ensures
        rs.len() <= games.len(),
    decreases games.len(),
{
    if games.len() > 0 {
        if first_attempt(q, games[0].1.moves@) is Some {
            lemma_collected_len(q, iq, games.drop_first(), rs.drop_first());
        } else {
            lemma_collected_len(q, iq, games.drop_first(), rs);
        }
    }
}

proof fn lemma_sort_lens(s: Seq<SearchResult>)
    ensures
        sort_by_score(s).len() == s.len(),
        sort_by_last(s).len() == s.len(),
    decreases s.len(),
{
    if s.len() > 0 {
        lemma_sort_lens(s.drop_last());
        lemma_insert_lens(sort_by_score(s.drop_last()), s.last());
        lemma_insert_lens(sort_by_last(s.drop_last()), s.last());
    }
}

proof fn lemma_insert_lens(s: Seq<SearchResult>, x: SearchResult)
    ensures
        crate::matcher::insert_by_score(s, x).len() == s.len() + 1,
        crate::matcher::insert_by_last(s, x).len() == s.len() + 1,
    decreases s.len(),
{
    if s.len() > 0 {
        lemma_insert_lens(s.drop_last(), x);
    }
}

/// A correct answer never holds more results than the corpus holds games.
proof fn lemma_valid_results_len(games: Seq<(String, Game)>, q: Seq<Placement>, rs: Seq<SearchResult>)
    requires
        valid_search_results(games, q, rs),
    ensures
        rs.len() <= games.len(),
{
    if q.len() == 0 {
    } else {
        let mid = choose|mid: Seq<SearchResult>|
            results_collected(q, within_one_quadrant(q), games, mid) && results_same(
                rs,
                sort_by_last(sort_by_score(mid)),
            );
        lemma_collected_len(q, within_one_quadrant(q), games, mid);
        lemma_sort_lens(mid);
        lemma_sort_lens(sort_by_score(mid));
    }
}

fn filter_passes_exec(r: &SearchResult, f: &PlayerFilter) -> (b: bool)
    ensures
        b == filter_passes(*r, *f),
{
    let black = match &r.player_black {
        Player::Id(i, _) => Some(*i),
        Player::Unknown(_) => None,
    };
    let white = match &r.player_white {
        Player::Id(i, _) => Some(*i),
        Player::Unknown(_) => None,
    };
    let black_is = match black {
        Some(i) => i == f.player_id,
        None => false,
    };
    let white_is = match white {
        Some(i) => i == f.player_id,
        None => false,
    };
    match f.color {
        None => black_is || white_is,
        Some(Color::Black) => black_is,
        Some(Color::White) => white_is,
    }
}

fn passes_all_exec(r: &SearchResult, fs: &Vec<PlayerFilter>) -> (b: bool)
    ensures
        b == passes_all(*r, fs@),
{
    let mut i: usize = 0;
    while i < fs.len()
        invariant
            i <= fs@.len(),
            forall|k: int| 0 <= k < i ==> filter_passes(*r, #[trigger] fs@[k]),
        decreases fs@.len() - i,
    {
        if !filter_passes_exec(r, &fs[i]) {
            return false;
        }
        i = i + 1;
    }
    true
}

impl WasmSearch {
    /// Answers one query: ranked matches under the eight symmetries,
    /// reduced to the games every filter accepts, with the asked page of
    /// results, up to nine suggested continuations for the side to move,
    /// per-player game counts, and the paging figures.
    #[verifier::rlimit(100)]
    pub fn search(
        &mut self,
        position: Vec<Placement>,
        next_color: u8,
        page: usize,
        page_size: usize,
        player_filters: Vec<PlayerFilter>,
    ) -> (out: SearchOutput)
        requires
            old(self).wf(),
            valid_position(position@),
            position@.len() <= 400,
            corpus_of(old(self)).len() <= 100000,
            page_size > 0,
        ensures
            final(self).wf(),
            corpus_of(final(self)) == corpus_of(old(self)),
            exists|base: Seq<SearchResult>|
                {
                    &&& valid_search_results(corpus_of(old(self)), position@, base)
                    &&& ({
                        let filtered = spec_filtered(base, player_filters@);
                        let num = filtered.len() as int;
                        let total = num / page_size as int + if num % page_size as int == 0 {
                            0int
                        } else {
                            1int
                        };
                        let maxp = if total > 0 {
                            total - 1
                        } else {
                            0int
                        };
                        let current = if page <= maxp {
                            page as int
                        } else {
                            maxp
                        };
                        let start = current * page_size;
                        let end = if start + page_size <= num {
                            start + page_size
                        } else {
                            num
                        };
                        let c = if next_color == 0 {
                            Color::Black
                        } else {
                            Color::White
                        };
                        let nm = spec_next_moves(filtered, position@, c);
                        &&& out.num_results == num
                        &&& out.total_pages == total
                        &&& out.current_page == current
                        &&& results_same(out.results@, filtered.subrange(start, end))
                        &&& out.next_moves@ == nm.subrange(
                            0,
                            if nm.len() < 9 {
                                nm.len() as int
                            } else {
                                9
                            },
                        )
                        &&& counts_view(out.player_counts@) == counts_fold(
                            Seq::empty(),
                            filtered,
                            player_filters@.map_values(|f: PlayerFilter| f.player_id),
                        )
                    })
                },
    {
        let ghost games0 = corpus_of(old(self));
        let all = self.match_position_cached(&position);
        let ghost base = all@;
        proof {
            lemma_valid_results_len(games0, position@, base);
        }

        // Keep only the games every filter accepts.
        let mut results: Vec<SearchResult> = Vec::new();
        let mut rest = all;
        let total_in = rest.len();
        let mut t: usize = 0;
        proof {
            assert(base.skip(0) =~= base);
            assert(results@ =~= spec_filtered(base.subrange(0, 0), player_filters@));
        }
        while rest.len() > 0
            invariant
                t + rest@.len() == total_in,
                total_in == base.len(),
                rest@ == base.skip(t as int),
                results@ == spec_filtered(base.subrange(0, t as int), player_filters@),
                results@.len() <= t,
            decreases rest@.len(),
        {
            proof {
                assert(base.skip(t as int)[0] == base[t as int]);
                assert(base.subrange(0, t as int + 1).drop_last() =~= base.subrange(0, t as int));
                assert(base.subrange(0, t as int + 1).last() == base[t as int]);
            }
            let r = rest.remove(0);
            proof {
                assert(rest@ =~= base.skip(t as int + 1));
            }
            if passes_all_exec(&r, &player_filters) {
                results.push(r);
            }
            t = t + 1;
        }
        proof {
            assert(base.subrange(0, base.len() as int) =~= base);
        }
        let ghost filtered = spec_filtered(base, player_filters@);

        // Suggested continuations for the side to move.
        let c = if next_color == 0 {
            Color::Black
        } else {
            Color::White
        };
        let next_moves_all = get_next_moves(&results, position.as_slice(), c);
        let keep = if next_moves_all.len() < 9 {
            next_moves_all.len()
        } else {
            9
        };
        let mut next_moves: Vec<NextMove> = Vec::new();
        let mut k: usize = 0;
        while k < keep
            invariant
                keep <= next_moves_all@.len(),
                k <= keep,
                next_moves@ =~= next_moves_all@.subrange(0, k as int),
            decreases keep - k,
        {
            next_moves.push(next_moves_all[k]);
            k = k + 1;
        }

        // Count the players of the surviving games, except filtered ids.
        let mut filter_ids: Vec<i16> = Vec::new();
        let mut fi: usize = 0;
        while fi < player_filters.len()
            invariant
                fi <= player_filters@.len(),
                filter_ids@ =~= player_filters@.subrange(0, fi as int).map_values(
                    |f: PlayerFilter| f.player_id,
                ),
            decreases player_filters@.len() - fi,
        {
            proof {
                assert(player_filters@.subrange(0, fi as int + 1).map_values(
                    |f: PlayerFilter| f.player_id,
                ) =~= player_filters@.subrange(0, fi as int).map_values(
                    |f: PlayerFilter| f.player_id,
                ).push(player_filters@[fi as int].player_id));
            }
            filter_ids.push(player_filters[fi].player_id);
            fi = fi + 1;
        }
        proof {
            assert(player_filters@.subrange(0, player_filters@.len() as int) =~= player_filters@);
        }
        let ghost excluded = player_filters@.map_values(|f: PlayerFilter| f.player_id);
        let mut player_counts: Vec<(i16, usize)> = Vec::new();
        let mut pi: usize = 0;
        proof {
            assert(results@.skip(0) =~= results@);
            assert(counts_view(player_counts@) =~= Seq::<(i16, int)>::empty());
        }
        while pi < results.len()
            invariant
                pi <= results@.len(),
                results@.len() <= 100000,
                filter_ids@ == excluded,
                counts_fold(Seq::empty(), results@, excluded) == counts_fold(
                    counts_view(player_counts@),
                    results@.skip(pi as int),
                    excluded,
                ),
                forall|k2: int|
                    0 <= k2 < player_counts@.len() ==> (#[trigger] player_counts@[k2]).1 <= 2 * pi,
            decreases results@.len() - pi,
        {
            proof {
                assert(results@.skip(pi as int)[0] == results@[pi as int]);
                assert(results@.skip(pi as int).drop_first() =~= results@.skip(pi as int + 1));
            }
            let r = &results[pi];
            count_player(&mut player_counts, &r.player_black, &filter_ids, Ghost(2 * pi as int));
            count_player(
                &mut player_counts,
                &r.player_white,
                &filter_ids,
                Ghost(2 * pi as int + 1),
            );
            pi = pi + 1;
        }
        proof {
            assert(results@.skip(results@.len() as int) =~= Seq::<SearchResult>::empty());
        }

        // Paging.
        let num_results = results.len();
        let total_pages = num_results / page_size + if num_results % page_size == 0 {
            0
        } else {
            1
        };
        let maxp = if total_pages > 0 {
            total_pages - 1
        } else {
            0
        };
        let current_page = if page <= maxp {
            page
        } else {
            maxp
        };
        proof {
            let num = num_results as int;
            let s = page_size as int;
            let q = num / s;
            let r = num % s;
            vstd::arithmetic::div_mod::lemma_fundamental_div_mod(num, s);
            vstd::arithmetic::div_mod::lemma_mod_pos_bound(num, s);
            if num_results > 0 {
                let mp = if r == 0 {
                    q - 1
                } else {
                    q
                };
                assert(r == 0 ==> q >= 1) by (nonlinear_arith)
                    requires
                        num == q * s + r,
                        num > 0,
                        0 <= r < s,
                        s >= 1,
                ;
                assert(current_page <= mp);
                assert(mp * s <= num - 1) by (nonlinear_arith)
                    requires
                        s >= 1,
                        num == q * s + r,
                        0 <= r < s,
                        num > 0,
                        mp == (if r == 0 {
                            q - 1
                        } else {
                            q
                        }),
                ;
                assert(current_page * s <= mp * s) by (nonlinear_arith)
                    requires
                        s >= 1,
                        0 <= current_page <= mp,
                ;
            }
        }
        let start = current_page * page_size;
        let end = if page_size <= num_results - start {
            start + page_size
        } else {
            num_results
        };
        let mut page_results: Vec<SearchResult> = Vec::new();
        let mut s: usize = start;
        while s < end
            invariant
                start <= s <= end <= results@.len(),
                page_results@.len() == s - start,
                forall|k2: int|
                    0 <= k2 < page_results@.len() ==> result_same(
                        results@[start + k2],
                        #[trigger] page_results@[k2],
                    ),
            decreases end - s,
        {
            page_results.push(duplicate_result(&results[s]));
            s = s + 1;
        }

        SearchOutput {
            num_results,
            next_moves,
            results: page_results,
            total_pages,
            current_page,
            player_counts,
        }
    }
}

/// Counts one more game for a resolved player, unless the caller filtered
/// on that id.
fn count_player(
    player_counts: &mut Vec<(i16, usize)>,
    p: &Player,
    filter_ids: &Vec<i16>,
    bound: Ghost<int>,
)
    requires
        0 <= bound@ <= 500000,
        forall|k: int|
            0 <= k < old(player_counts)@.len() ==> (#[trigger] old(player_counts)@[k]).1 <= bound@,
    ensures
        counts_view(final(player_counts)@) == counts_add_player(
            counts_view(old(player_counts)@),
            *p,
            filter_ids@,
        ),
        forall|k: int|
            0 <= k < final(player_counts)@.len() ==> (#[trigger] final(player_counts)@[k]).1
                <= bound@ + 1,
{
    let id = match p {
        Player::Id(i, _) => *i,
        Player::Unknown(_) => {
            return ;
        },
    };
    let mut ex: usize = 0;
    while ex < filter_ids.len()
        invariant
            0 <= bound@ <= 500000,
            ex <= filter_ids@.len(),
            player_counts@ == old(player_counts)@,
            (match *p {
                Player::Id(i, _) => i == id,
                Player::Unknown(_) => false,
            }),
            forall|k: int|
                0 <= k < old(player_counts)@.len() ==> (#[trigger] old(
                    player_counts,
                )@[k]).1 <= bound@,
            forall|k: int| 0 <= k < ex ==> filter_ids@[k] != id,
        decreases filter_ids@.len() - ex,
    {
        if filter_ids[ex] == id {
            proof {
                assert(filter_ids@.contains(id));
            }
            return ;
        }
        ex = ex + 1;
    }
    proof {
        assert(!filter_ids@.contains(id));
    }
    // Bump the entry for this id, creating it on first sight.
    let ghost pre = counts_view(player_counts@);
    let mut j: usize = 0;
    while j < player_counts.len()
        invariant
            0 <= bound@ <= 500000,
            j <= player_counts@.len(),
            player_counts@ == old(player_counts)@,
            pre == counts_view(player_counts@),
            (match *p {
                Player::Id(i, _) => i == id,
                Player::Unknown(_) => false,
            }),
            !filter_ids@.contains(id),
            forall|k: int| 0 <= k < j ==> (#[trigger] player_counts@[k]).0 != id,
            forall|k: int|
                0 <= k < player_counts@.len() ==> (#[trigger] player_counts@[k]).1 <= bound@,
        decreases player_counts@.len() - j,
    {
        if player_counts[j].0 == id {
            let e = player_counts.remove(j);
            player_counts.insert(j, (id, e.1 + 1));
            proof {
                assert forall|k: int| 0 <= k < j implies (#[trigger] pre[k]).0 != id by {
                    assert(pre[k].0 == player_counts@[k].0);
                }
                lemma_counts_bump_at(pre, id, j as int);
                assert(counts_view(player_counts@) =~= counts_bump(pre, id));
            }
            return ;
        }
        j = j + 1;
    }
    proof {
        assert forall|k: int| 0 <= k < pre.len() implies (#[trigger] pre[k]).0 != id by {
            assert(pre[k].0 == player_counts@[k].0);
        }
    }
    player_counts.push((id, 1));
    proof {
        lemma_counts_bump_missing(pre, id);
        assert(counts_view(player_counts@) =~= counts_bump(pre, id));
    }
}

pub(crate) proof fn lemma_counts_bump_at(acc: Seq<(i16, int)>, id: i16, j: int)
    requires
        0 <= j < acc.len(),
        acc[j].0 == id,
        forall|k: int| 0 <= k < j ==> (#[trigger] acc[k]).0 != id,
    ensures
        counts_bump(acc, id) == acc.update(j, (id, acc[j].1 + 1)),
    decreases j,
{
    if j == 0 {
        assert(counts_bump(acc, id) =~= acc.update(0, (id, acc[0].1 + 1)));
    } else {
        let d = acc.drop_first();
        assert(d =~= acc.subrange(1, acc.len() as int));
        lemma_counts_bump_at(d, id, j - 1);
        assert(seq![acc[0]] + d.update(j - 1, (id, acc[j].1 + 1)) =~= acc.update(
            j,
            (id, acc[j].1 + 1),
        ));
    }
}

pub(crate) proof fn lemma_counts_bump_missing(acc: Seq<(i16, int)>, id: i16)
    requires
        forall|k: int| 0 <= k < acc.len() ==> (#[trigger] acc[k]).0 != id,
    ensures
        counts_bump(acc, id) == acc.push((id, 1int)),
    decreases acc.len(),
{
    if acc.len() == 0 {
        assert(counts_bump(acc, id) =~= acc.push((id, 1int)));
    } else {
        let d = acc.drop_first();
        assert(d =~= acc.subrange(1, acc.len() as int));
        lemma_counts_bump_missing(d, id);
        assert(seq![acc[0]] + d.push((id, 1int)) =~= acc.push((id, 1int)));
    }
}

} // verus!