use baduk_search::board::{Color, Placement, Point};
use baduk_search::builder::{compute_captures, find_duplicates, merge_games, sort_games_by_date};
use baduk_search::codec::CaptureEntry;
use baduk_search::facade::{PlayerFilter, WasmSearch};
use baduk_search::game::{pack_games, unpack_games, Game};
use baduk_search::matcher::match_position;
use baduk_search::meta::{parse_rank, parse_rules, parse_sgf_date, Player, Rank, Rules, SgfDate};
use baduk_search::result::{parse_sgf_result, GameResult, Score};

fn pl(color: Color, x: u8, y: u8) -> Placement {
    Placement { color, point: Point { x, y } }
}

fn sample_game(moves: Vec<Placement>) -> Game {
    Game {
        event: "Test Event".to_string(),
        round: "1".to_string(),
        location: "Test Place".to_string(),
        date: Some(SgfDate::YearMonthDay(2024, 1, 1)),
        player_black: Player::Id(1, "Black".to_string()),
        player_white: Player::Id(2, "White".to_string()),
        rank_black: Rank::Pro(9),
        rank_white: Rank::Pro(9),
        komi: None,
        rules: None,
        result: parse_sgf_result("B+R"),
        captures: compute_captures(&moves),
        moves,
    }
}

#[test]
fn test_parse_rank() {
    assert_eq!(parse_rank(""), Rank::Custom("".to_string()));
    assert_eq!(parse_rank("   "), Rank::Custom("".to_string()));
    assert_eq!(parse_rank("1d"), Rank::Dan(1));
    assert_eq!(parse_rank("1dan"), Rank::Dan(1));
    assert_eq!(parse_rank("1 d"), Rank::Dan(1));
    assert_eq!(parse_rank("1 dan"), Rank::Dan(1));
    assert_eq!(parse_rank("1 Dan"), Rank::Dan(1));
    assert_eq!(parse_rank("  1d  "), Rank::Dan(1));
    assert_eq!(parse_rank("9d"), Rank::Dan(9));
    assert_eq!(parse_rank("9dan"), Rank::Dan(9));
    assert_eq!(parse_rank("1k"), Rank::Kyu(1));
    assert_eq!(parse_rank("1kyu"), Rank::Kyu(1));
    assert_eq!(parse_rank("1 k"), Rank::Kyu(1));
    assert_eq!(parse_rank("1 kyu"), Rank::Kyu(1));
    assert_eq!(parse_rank("1 Kyu"), Rank::Kyu(1));
    assert_eq!(parse_rank("  1k  "), Rank::Kyu(1));
    assert_eq!(parse_rank("30k"), Rank::Kyu(30));
    assert_eq!(parse_rank("30kyu"), Rank::Kyu(30));
    assert_eq!(parse_rank("1p"), Rank::Pro(1));
    assert_eq!(parse_rank("1pro"), Rank::Pro(1));
    assert_eq!(parse_rank("1 p"), Rank::Pro(1));
    assert_eq!(parse_rank("1 pro"), Rank::Pro(1));
    assert_eq!(parse_rank("1 Pro"), Rank::Pro(1));
    assert_eq!(parse_rank("  1p  "), Rank::Pro(1));
    assert_eq!(parse_rank("9p"), Rank::Pro(9));
    assert_eq!(parse_rank("9pro"), Rank::Pro(9));
    assert_eq!(parse_rank("invalid"), Rank::Custom("invalid".to_string()));
    assert_eq!(parse_rank("1"), Rank::Custom("1".to_string()));
    assert_eq!(parse_rank("d"), Rank::Custom("d".to_string()));
    assert_eq!(parse_rank("1invalid"), Rank::Custom("1invalid".to_string()));
    assert_eq!(parse_rank("1 invalid"), Rank::Custom("1 invalid".to_string()));
    assert_eq!(parse_rank("1d1"), Rank::Custom("1d1".to_string()));
    assert_eq!(parse_rank("1d1d"), Rank::Custom("1d1d".to_string()));
}

#[test]
fn test_parse_rules() {
    assert_eq!(parse_rules("Chinese"), Rules::Chinese);
    assert_eq!(parse_rules("chinese"), Rules::Chinese);
    assert_eq!(parse_rules("CHINESE"), Rules::Chinese);
    assert_eq!(parse_rules(" Chinese "), Rules::Chinese);
    assert_eq!(parse_rules("China"), Rules::Chinese);
    assert_eq!(parse_rules("china"), Rules::Chinese);
    assert_eq!(parse_rules("Chinese Rules"), Rules::Chinese);
    assert_eq!(parse_rules("CN"), Rules::Chinese);
    assert_eq!(parse_rules("cn"), Rules::Chinese);
    assert_eq!(parse_rules("CHN"), Rules::Chinese);
    assert_eq!(parse_rules("chn"), Rules::Chinese);
    assert_eq!(parse_rules("Japanese"), Rules::Japanese);
    assert_eq!(parse_rules("japanese"), Rules::Japanese);
    assert_eq!(parse_rules("JAPANESE"), Rules::Japanese);
    assert_eq!(parse_rules(" Japanese "), Rules::Japanese);
    assert_eq!(parse_rules("Japan"), Rules::Japanese);
    assert_eq!(parse_rules("japan"), Rules::Japanese);
    assert_eq!(parse_rules("Japanese Rules"), Rules::Japanese);
    assert_eq!(parse_rules("JP"), Rules::Japanese);
    assert_eq!(parse_rules("jp"), Rules::Japanese);
    assert_eq!(parse_rules("JPN"), Rules::Japanese);
    assert_eq!(parse_rules("jpn"), Rules::Japanese);
    assert_eq!(parse_rules("Korean"), Rules::Korean);
    assert_eq!(parse_rules("korean"), Rules::Korean);
    assert_eq!(parse_rules("KOREAN"), Rules::Korean);
    assert_eq!(parse_rules(" Korean "), Rules::Korean);
    assert_eq!(parse_rules("Korea"), Rules::Korean);
    assert_eq!(parse_rules("korea"), Rules::Korean);
    assert_eq!(parse_rules("Korean Rules"), Rules::Korean);
    assert_eq!(parse_rules("KR"), Rules::Korean);
    assert_eq!(parse_rules("kr"), Rules::Korean);
    assert_eq!(parse_rules("KOR"), Rules::Korean);
    assert_eq!(parse_rules("kor"), Rules::Korean);
    assert_eq!(parse_rules("Ing"), Rules::Ing);
    assert_eq!(parse_rules("ing"), Rules::Ing);
    assert_eq!(parse_rules("ING"), Rules::Ing);
    assert_eq!(parse_rules(" Ing "), Rules::Ing);
    assert_eq!(parse_rules("Ing Goe"), Rules::Ing);
    assert_eq!(parse_rules("ing goe"), Rules::Ing);
    assert_eq!(parse_rules("Ing GOE"), Rules::Ing);
    assert_eq!(parse_rules("Ing Goe Rules"), Rules::Ing);
    assert_eq!(parse_rules("ing goe rules"), Rules::Ing);
    assert_eq!(parse_rules("Ing Rules"), Rules::Ing);
    assert_eq!(parse_rules("ing rules"), Rules::Ing);
    assert_eq!(parse_rules("AGA"), Rules::Custom("aga".to_string()));
    assert_eq!(parse_rules("Old Chinese"), Rules::Custom("old chinese".to_string()));
    assert_eq!(parse_rules("Pair go"), Rules::Custom("pair go".to_string()));
    assert_eq!(parse_rules("GOE"), Rules::Custom("goe".to_string()));
    assert_eq!(parse_rules("Uchikomi"), Rules::Custom("uchikomi".to_string()));
    assert_eq!(parse_rules("Unknown"), Rules::Custom("unknown".to_string()));
    assert_eq!(parse_rules(""), Rules::Custom("".to_string()));
    assert_eq!(parse_rules("  "), Rules::Custom("".to_string()));
}

fn player(c: Color, score: Option<Score>, note: &str) -> GameResult {
    GameResult::Player(c, score, note.to_string())
}

fn points(text: &str) -> Option<Score> {
    Some(Score::Points(text.to_string()))
}

#[test]
fn test_parse_sgf_result() {
    assert_eq!(
        parse_sgf_result("\u{9ed1}\u{4e2d}\u{76d8}\u{80dc}"),
        player(Color::Black, Some(Score::Resignation), "")
    );
    assert_eq!(
        parse_sgf_result("\u{9ed1}\u{4e2d}\u{62bc}\u{80dc}"),
        player(Color::Black, Some(Score::Resignation), "")
    );
    assert_eq!(
        parse_sgf_result("\u{767d}\u{4e2d}\u{76d8}\u{80dc}"),
        player(Color::White, Some(Score::Resignation), "")
    );
    assert_eq!(
        parse_sgf_result("\u{767d}\u{4e2d}\u{62bc}\u{80dc}"),
        player(Color::White, Some(Score::Resignation), "")
    );
    assert_eq!(parse_sgf_result("\u{9ed1}\u{80dc}"), player(Color::Black, None, ""));
    assert_eq!(parse_sgf_result("\u{767d}\u{80dc}"), player(Color::White, None, ""));
    assert_eq!(parse_sgf_result("B"), player(Color::Black, None, ""));
    assert_eq!(parse_sgf_result("W"), player(Color::White, None, ""));
    assert_eq!(parse_sgf_result("\u{548c}\u{68cb}"), GameResult::Draw);
    assert_eq!(parse_sgf_result("\u{6253}\u{6302}"), GameResult::Void);
    assert_eq!(parse_sgf_result("\u{6253}\u{639b}"), GameResult::Void);
    assert_eq!(parse_sgf_result("Game suspended"), GameResult::Void);
    assert_eq!(parse_sgf_result("\u{4e0d}\u{8a73}"), GameResult::Unknown("".to_string()));
    assert_eq!(parse_sgf_result("0"), GameResult::Draw);
    assert_eq!(parse_sgf_result("Draw"), GameResult::Draw);
    assert_eq!(parse_sgf_result(" 0 "), GameResult::Draw);
    assert_eq!(parse_sgf_result(" Draw "), GameResult::Draw);
    assert_eq!(parse_sgf_result("?"), GameResult::Unknown("".to_string()));
    assert_eq!(parse_sgf_result("Void"), GameResult::Void);
    assert_eq!(parse_sgf_result(" void "), GameResult::Void);
    assert_eq!(parse_sgf_result("VOID"), GameResult::Void);
    assert_eq!(parse_sgf_result("B+0.5"), player(Color::Black, points("0.5"), ""));
    assert_eq!(parse_sgf_result("b+0.5"), player(Color::Black, points("0.5"), ""));
    assert_eq!(parse_sgf_result("B+64"), player(Color::Black, points("64"), ""));
    assert_eq!(parse_sgf_result("b+64"), player(Color::Black, points("64"), ""));
    assert_eq!(parse_sgf_result("B+12.5"), player(Color::Black, points("12.5"), ""));
    assert_eq!(parse_sgf_result("b+12.5"), player(Color::Black, points("12.5"), ""));
    assert_eq!(parse_sgf_result("B+R"), player(Color::Black, Some(Score::Resignation), ""));
    assert_eq!(parse_sgf_result("b+r"), player(Color::Black, Some(Score::Resignation), ""));
    assert_eq!(parse_sgf_result("B+Resign"), player(Color::Black, Some(Score::Resignation), ""));
    assert_eq!(parse_sgf_result("b+resign"), player(Color::Black, Some(Score::Resignation), ""));
    assert_eq!(parse_sgf_result("B+T"), player(Color::Black, Some(Score::Timeout), ""));
    assert_eq!(parse_sgf_result("b+t"), player(Color::Black, Some(Score::Timeout), ""));
    assert_eq!(parse_sgf_result("B+Time"), player(Color::Black, Some(Score::Timeout), ""));
    assert_eq!(parse_sgf_result("b+time"), player(Color::Black, Some(Score::Timeout), ""));
    assert_eq!(parse_sgf_result("B+F"), player(Color::Black, Some(Score::Forfeit), ""));
    assert_eq!(parse_sgf_result("b+f"), player(Color::Black, Some(Score::Forfeit), ""));
    assert_eq!(parse_sgf_result("B+Forfeit"), player(Color::Black, Some(Score::Forfeit), ""));
    assert_eq!(parse_sgf_result("b+forfeit"), player(Color::Black, Some(Score::Forfeit), ""));
    assert_eq!(parse_sgf_result("W+0.5"), player(Color::White, points("0.5"), ""));
    assert_eq!(parse_sgf_result("w+0.5"), player(Color::White, points("0.5"), ""));
    assert_eq!(parse_sgf_result("W+64"), player(Color::White, points("64"), ""));
    assert_eq!(parse_sgf_result("w+64"), player(Color::White, points("64"), ""));
    assert_eq!(parse_sgf_result("W+12.5"), player(Color::White, points("12.5"), ""));
    assert_eq!(parse_sgf_result("w+12.5"), player(Color::White, points("12.5"), ""));
    assert_eq!(parse_sgf_result("W+R"), player(Color::White, Some(Score::Resignation), ""));
    assert_eq!(parse_sgf_result("w+r"), player(Color::White, Some(Score::Resignation), ""));
    assert_eq!(parse_sgf_result("W+Resign"), player(Color::White, Some(Score::Resignation), ""));
    assert_eq!(parse_sgf_result("w+resign"), player(Color::White, Some(Score::Resignation), ""));
    assert_eq!(parse_sgf_result("W+T"), player(Color::White, Some(Score::Timeout), ""));
    assert_eq!(parse_sgf_result("w+t"), player(Color::White, Some(Score::Timeout), ""));
    assert_eq!(parse_sgf_result("W+Time"), player(Color::White, Some(Score::Timeout), ""));
    assert_eq!(parse_sgf_result("w+time"), player(Color::White, Some(Score::Timeout), ""));
    assert_eq!(parse_sgf_result("W+F"), player(Color::White, Some(Score::Forfeit), ""));
    assert_eq!(parse_sgf_result("w+f"), player(Color::White, Some(Score::Forfeit), ""));
    assert_eq!(parse_sgf_result("W+Forfeit"), player(Color::White, Some(Score::Forfeit), ""));
    assert_eq!(parse_sgf_result("w+forfeit"), player(Color::White, Some(Score::Forfeit), ""));
    assert_eq!(
        parse_sgf_result("W+2 {moves beyond 111 not known}"),
        player(Color::White, points("2"), "moves beyond 111 not known")
    );
    assert_eq!(
        parse_sgf_result("B+8 (moves after 208 not recorded)"),
        player(Color::Black, points("8"), "moves after 208 not recorded")
    );
    assert_eq!(parse_sgf_result("Jigo (moves after 127 not recorded)"), GameResult::Draw);
    assert_eq!(
        parse_sgf_result("B+R (resignation after 150 moves)"),
        player(Color::Black, Some(Score::Resignation), "resignation after 150 moves")
    );
    assert_eq!(
        parse_sgf_result("W+T {timeout in endgame}"),
        player(Color::White, Some(Score::Timeout), "timeout in endgame")
    );
    assert_eq!(parse_sgf_result("Draw (game ended in jigo)"), GameResult::Draw);
    assert_eq!(parse_sgf_result("0 (no winner declared)"), GameResult::Draw);
    assert_eq!(parse_sgf_result("invalid"), GameResult::Unknown("invalid".to_string()));
    assert_eq!(parse_sgf_result("B+invalid"), player(Color::Black, None, ""));
    assert_eq!(parse_sgf_result("b+invalid"), player(Color::Black, None, ""));
    assert_eq!(parse_sgf_result("W+invalid"), player(Color::White, None, ""));
    assert_eq!(parse_sgf_result("w+invalid"), player(Color::White, None, ""));
    assert_eq!(parse_sgf_result("B+"), player(Color::Black, None, ""));
    assert_eq!(parse_sgf_result("b+"), player(Color::Black, None, ""));
    assert_eq!(parse_sgf_result("W+"), player(Color::White, None, ""));
    assert_eq!(parse_sgf_result("w+"), player(Color::White, None, ""));
    assert_eq!(parse_sgf_result("B+ "), player(Color::Black, None, ""));
    assert_eq!(parse_sgf_result(" W+ "), player(Color::White, None, ""));
}

#[test]
fn test_parse_sgf_date() {
    assert_eq!(parse_sgf_date("2024-01-15"), SgfDate::YearMonthDay(2024, 1, 15));
    assert_eq!(parse_sgf_date(" 1996-05 "), SgfDate::YearMonth(1996, 5));
    assert_eq!(parse_sgf_date("1846"), SgfDate::Year(1846));
    assert_eq!(parse_sgf_date("2024-01-15 18:00"), SgfDate::YearMonthDay(2024, 1, 15));
    assert_eq!(parse_sgf_date("2024-01-15,2024-01-16"), SgfDate::YearMonthDay(2024, 1, 15));
    assert_eq!(parse_sgf_date("2024-13-01"), SgfDate::Custom("2024-13-01".to_string()));
    assert_eq!(parse_sgf_date("spring"), SgfDate::Custom("spring".to_string()));
    assert_eq!(parse_sgf_date(""), SgfDate::Custom("".to_string()));
}

#[test]
fn test_rank_text() {
    assert_eq!(Rank::Kyu(30).text(), "30k");
    assert_eq!(Rank::Dan(7).text(), "7d");
    assert_eq!(Rank::Pro(9).text(), "9P");
    assert_eq!(Rank::Custom("master".to_string()).text(), "master");
    assert_eq!(Rank::Pro(101).text(), "101P");
}

#[test]
fn test_pack_unpack_games_round_trip() {
    let g1 = sample_game(vec![
        pl(Color::Black, 3, 3),
        pl(Color::White, 15, 15),
        pl(Color::Black, 3, 15),
        pl(Color::White, 15, 3),
        pl(Color::Black, 9, 9),
    ]);
    let mut g2 = sample_game(vec![
        pl(Color::Black, 5, 5),
        pl(Color::White, 5, 4),
        pl(Color::Black, 10, 10),
        pl(Color::White, 5, 6),
        pl(Color::White, 4, 5),
        pl(Color::White, 6, 5),
    ]);
    g2.komi = Some(0x40d00000);
    g2.rules = Some(Rules::Japanese);
    let corpus = vec![("a/b".to_string(), g1), ("c/d".to_string(), g2)];
    let packed = pack_games(&corpus);
    let unpacked = unpack_games(&packed);
    assert_eq!(unpacked, corpus);
}

#[test]
fn test_merge_games_prefers_informative_fields() {
    let mut kept = sample_game(vec![
        pl(Color::Black, 3, 3),
        pl(Color::White, 15, 15),
        pl(Color::Black, 3, 15),
        pl(Color::White, 15, 3),
        pl(Color::Black, 9, 9),
    ]);
    kept.event = "".to_string();
    kept.date = Some(SgfDate::Year(2024));
    kept.player_black = Player::Unknown("someone".to_string());
    kept.rank_black = Rank::Kyu(5);
    kept.result = GameResult::Unknown("".to_string());
    let mut incoming = sample_game(vec![
        pl(Color::Black, 3, 3),
        pl(Color::White, 15, 15),
        pl(Color::Black, 3, 15),
        pl(Color::White, 15, 3),
        pl(Color::Black, 9, 9),
        pl(Color::White, 10, 10),
    ]);
    incoming.event = "Cup".to_string();
    incoming.date = Some(SgfDate::YearMonth(2024, 3));
    incoming.player_black = Player::Id(7, "someone".to_string());
    incoming.rank_black = Rank::Dan(2);
    incoming.result = GameResult::Draw;
    merge_games(&mut kept, incoming);
    assert_eq!(kept.event, "Cup");
    assert_eq!(kept.date, Some(SgfDate::YearMonth(2024, 3)));
    assert_eq!(kept.player_black, Player::Id(7, "someone".to_string()));
    assert_eq!(kept.rank_black, Rank::Dan(2));
    assert_eq!(kept.result, GameResult::Draw);
    assert_eq!(kept.moves.len(), 6);
}

#[test]
fn test_find_duplicates_merges_rotated_copy() {
    let moves = vec![
        pl(Color::Black, 3, 3),
        pl(Color::White, 15, 15),
        pl(Color::Black, 3, 15),
        pl(Color::White, 15, 3),
        pl(Color::Black, 9, 8),
        pl(Color::White, 10, 10),
        pl(Color::Black, 2, 2),
        pl(Color::White, 16, 16),
        pl(Color::Black, 2, 16),
        pl(Color::White, 16, 2),
        pl(Color::Black, 8, 8),
    ];
    // The same game reported by a different source, rotated a quarter turn.
    let rotated: Vec<Placement> = moves
        .iter()
        .map(|p| Placement {
            color: p.color,
            point: Point { x: 18 - p.point.y, y: p.point.x },
        })
        .collect();
    let mut a = sample_game(moves);
    a.player_black = Player::Id(1, "One".to_string());
    let mut b = sample_game(rotated);
    b.player_black = Player::Id(3, "Three".to_string());
    let games = vec![("x".to_string(), a), ("y".to_string(), b)];
    let (unique, aliases) = find_duplicates(games);
    assert_eq!(unique.len(), 1);
    assert_eq!(unique[0].0, "x");
    assert_eq!(aliases, vec![(1, 3)]);
}

#[test]
fn test_sort_games_by_date_is_stable_and_dated_first() {
    let mut g1 = sample_game(vec![pl(Color::Black, 3, 3); 1]);
    g1.date = None;
    let mut g2 = sample_game(vec![pl(Color::Black, 4, 4); 1]);
    g2.date = Some(SgfDate::Year(1990));
    let mut g3 = sample_game(vec![pl(Color::Black, 5, 5); 1]);
    g3.date = Some(SgfDate::YearMonthDay(1990, 2, 1));
    let sorted = sort_games_by_date(vec![
        ("undated".to_string(), g1),
        ("year".to_string(), g2),
        ("full".to_string(), g3),
    ]);
    assert_eq!(sorted[0].0, "full");
    assert_eq!(sorted[1].0, "year");
    assert_eq!(sorted[2].0, "undated");
}

#[test]
fn test_search_identity_match() {
    let game = sample_game(vec![
        pl(Color::Black, 3, 3),
        pl(Color::White, 15, 15),
        pl(Color::Black, 3, 15),
        pl(Color::White, 15, 3),
        pl(Color::Black, 9, 9),
    ]);
    let corpus = vec![("game".to_string(), game)];
    let query = vec![pl(Color::Black, 3, 3), pl(Color::White, 15, 15)];
    let results = match_position(&corpus, &query);
    assert_eq!(results.len(), 1);
    assert_eq!(results[0].path, "game");
    assert_eq!(results[0].last_move_matched, 1);
    assert_eq!(results[0].rotation, 0);
    assert!(!results[0].is_inverted);
    assert!(!results[0].is_mirrored);
    assert_eq!(results[0].all_empty_correctly_within, 3);
    // Base 100, all three radii clean around both stones, minus the match depth.
    assert_eq!(results[0].score, (100 + 2 * (3 + 6 + 9)) * 4 - 1);
}

#[test]
fn test_search_mirrored_outside_quadrant() {
    let game = sample_game(vec![
        pl(Color::Black, 3, 4),
        pl(Color::White, 15, 15),
        pl(Color::Black, 3, 15),
        pl(Color::White, 6, 9),
        pl(Color::Black, 9, 9),
    ]);
    let corpus = vec![("game".to_string(), game)];
    // The mirror image of the first two moves, crossing quadrants.
    let query = vec![pl(Color::Black, 15, 4), pl(Color::White, 3, 15)];
    let results = match_position(&corpus, &query);
    assert_eq!(results.len(), 1);
    assert!(results[0].is_mirrored);
    assert!(!results[0].is_inverted);
    assert_eq!(results[0].rotation, 0);
    assert_eq!(results[0].last_move_matched, 1);
    // The de-weighted mirror base of 10, plus the clean-window bonuses,
    // scaled by the clean radius and reduced by the match depth.
    assert_eq!(results[0].score, (10 + 2 * (3 + 6 + 9)) * 4 - 1);
}

#[test]
fn test_empty_query_returns_every_game_with_score_zero() {
    let g1 = sample_game(vec![
        pl(Color::Black, 3, 3),
        pl(Color::White, 15, 15),
        pl(Color::Black, 3, 15),
        pl(Color::White, 15, 3),
        pl(Color::Black, 9, 9),
    ]);
    let g2 = sample_game(vec![
        pl(Color::Black, 16, 16),
        pl(Color::White, 3, 2),
        pl(Color::Black, 2, 16),
        pl(Color::White, 16, 2),
        pl(Color::Black, 9, 8),
    ]);
    let corpus = vec![("one".to_string(), g1), ("two".to_string(), g2)];
    let mut engine = WasmSearch::new(corpus);
    let out = engine.search(Vec::new(), 0, 0, 10, Vec::new());
    assert_eq!(out.num_results, 2);
    assert_eq!(out.results.len(), 2);
    assert!(out.results.iter().all(|r| r.score == 0 && r.last_move_matched == 0));
    assert_eq!(out.total_pages, 1);
    assert_eq!(out.current_page, 0);
}

#[test]
fn test_instantiate() {
    let game = sample_game(vec![
        pl(Color::Black, 3, 3),
        pl(Color::White, 15, 15),
        pl(Color::Black, 3, 15),
        pl(Color::White, 15, 3),
        pl(Color::Black, 9, 9),
    ]);
    let engine = WasmSearch::new(vec![("game".to_string(), game)]);
    assert!(!engine.games().is_empty());
}

#[test]
fn test_search_filters_by_player() {
    let mut g1 = sample_game(vec![
        pl(Color::Black, 3, 3),
        pl(Color::White, 15, 15),
        pl(Color::Black, 3, 15),
        pl(Color::White, 15, 3),
        pl(Color::Black, 9, 9),
    ]);
    g1.player_black = Player::Id(11, "A".to_string());
    let mut g2 = sample_game(vec![
        pl(Color::Black, 3, 3),
        pl(Color::White, 15, 15),
        pl(Color::Black, 2, 16),
        pl(Color::White, 16, 2),
        pl(Color::Black, 9, 8),
    ]);
    g2.player_black = Player::Id(22, "B".to_string());
    let corpus = vec![("one".to_string(), g1), ("two".to_string(), g2)];
    let mut engine = WasmSearch::new(corpus);
    let query = vec![pl(Color::Black, 3, 3)];
    let filters = vec![PlayerFilter { player_id: 22, color: Some(Color::Black) }];
    let out = engine.search(query, 0, 0, 10, filters);
    assert_eq!(out.num_results, 1);
    assert_eq!(out.results[0].path, "two");
    // The filtered player id is not suggested back in the counts.
    assert!(out.player_counts.iter().all(|(id, _)| *id != 22));
    assert!(out.player_counts.contains(&(2, 1)));
}

#[test]
fn test_count_player_ids_counts_both_sides() {
    let mut g1 = sample_game(vec![pl(Color::Black, 3, 3)]);
    g1.player_black = Player::Id(7, "A".to_string());
    g1.player_white = Player::Id(9, "B".to_string());
    let mut g2 = sample_game(vec![pl(Color::Black, 4, 4)]);
    g2.player_black = Player::Id(7, "A".to_string());
    g2.player_white = Player::Unknown("C".to_string());
    let games = vec![("x".to_string(), g1), ("y".to_string(), g2)];
    let counts = baduk_search::builder::count_player_ids(&games);
    assert_eq!(counts, vec![(7, 2), (9, 1)]);
}

#[test]
fn test_filter_alias_pairs_drops_absent_ids() {
    let pairs = vec![(1, 2), (3, 4), (1, 5)];
    let counts = vec![(1, 2usize), (2, 1usize), (5, 0usize), (3, 1usize)];
    let kept = baduk_search::builder::filter_alias_pairs(&pairs, &counts);
    assert_eq!(kept, vec![(1, 2)]);
}

#[test]
fn test_collect_player_names_sorted_and_distinct() {
    let mut g1 = sample_game(vec![pl(Color::Black, 3, 3)]);
    g1.player_black = Player::Id(7, "Zed".to_string());
    g1.player_white = Player::Unknown("Amy".to_string());
    let mut g2 = sample_game(vec![pl(Color::Black, 4, 4)]);
    g2.player_black = Player::Unknown("".to_string());
    g2.player_white = Player::Unknown("Amy".to_string());
    let games = vec![("x".to_string(), g1), ("y".to_string(), g2)];
    let all = baduk_search::builder::collect_player_names(&games, false);
    assert_eq!(all, vec!["Amy".to_string(), "Zed".to_string()]);
    let unknown = baduk_search::builder::collect_player_names(&games, true);
    assert_eq!(unknown, vec!["Amy".to_string()]);
}
