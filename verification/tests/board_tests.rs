use baduk_search::board::{Color, Placement, Point, BOARD_SIZE};
use baduk_search::codec::{
    pack_captures, pack_placements, unpack_captures, unpack_placements, CaptureEntry,
};
use baduk_search::engine::GoBoard;
use baduk_search::position::{calculate_position, get_captured_groups, get_connected_groups, get_group_liberties};
use baduk_search::symmetry::{
    check_within_one_quadrant, get_mirrored, get_surrounding_points, match_game,
};

fn pl(color: Color, x: u8, y: u8) -> Placement {
    Placement { color, point: Point { x, y } }
}

#[test]
fn test_get_surrounding_points_range1() {
    let point = Point { x: 1, y: 1 };
    let surrounding_points = get_surrounding_points(&point, 1);
    assert_eq!(surrounding_points.len(), 8);
    assert!(surrounding_points.contains(&Point { x: 0, y: 0 }));
    assert!(surrounding_points.contains(&Point { x: 0, y: 1 }));
    assert!(surrounding_points.contains(&Point { x: 1, y: 0 }));
    assert!(surrounding_points.contains(&Point { x: 2, y: 0 }));
    assert!(surrounding_points.contains(&Point { x: 2, y: 1 }));
    assert!(surrounding_points.contains(&Point { x: 0, y: 2 }));
    assert!(surrounding_points.contains(&Point { x: 1, y: 2 }));
}

#[test]
fn test_get_surrounding_points_at_corner() {
    let point = Point { x: 0, y: 0 };
    let surrounding_points = get_surrounding_points(&point, 1);
    assert_eq!(surrounding_points.len(), 3);
    assert!(surrounding_points.contains(&Point { x: 0, y: 1 }));
    assert!(surrounding_points.contains(&Point { x: 1, y: 0 }));
    assert!(surrounding_points.contains(&Point { x: 1, y: 1 }));
}

#[test]
fn test_get_surrounding_points_at_other_corner() {
    let point = Point { x: BOARD_SIZE - 1, y: BOARD_SIZE - 1 };
    let surrounding_points = get_surrounding_points(&point, 1);
    assert_eq!(surrounding_points.len(), 3);
    assert!(surrounding_points.contains(&Point { x: BOARD_SIZE - 2, y: BOARD_SIZE - 1 }));
    assert!(surrounding_points.contains(&Point { x: BOARD_SIZE - 1, y: BOARD_SIZE - 2 }));
    assert!(surrounding_points.contains(&Point { x: BOARD_SIZE - 2, y: BOARD_SIZE - 2 }));
}

#[test]
fn test_surrounding_points_range2() {
    let point = Point { x: 3, y: 3 };
    let surrounding_points = get_surrounding_points(&point, 2);
    assert_eq!(surrounding_points.len(), 24);
}

#[test]
fn test_surrounding_points_range2_at_corner() {
    let point = Point { x: 0, y: 0 };
    let surrounding_points = get_surrounding_points(&point, 2);
    assert_eq!(surrounding_points.len(), 8);
}

#[test]
fn test_surrounding_points_range2_1_1_point() {
    let point = Point { x: 1, y: 1 };
    let surrounding_points = get_surrounding_points(&point, 2);
    assert_eq!(surrounding_points.len(), 15);
}

#[test]
fn test_get_mirrored() {
    let position = vec![
        pl(Color::Black, 0, 0),
        pl(Color::White, 18, 5),
        pl(Color::Black, 9, 9),
    ];
    let mirrored = get_mirrored(&position);
    assert_eq!(mirrored.len(), 3);
    assert!(mirrored.contains(&pl(Color::Black, 18, 0)));
    assert!(mirrored.contains(&pl(Color::White, 0, 5)));
    assert!(mirrored.contains(&pl(Color::Black, 9, 9)));
}

#[test]
fn test_mirror_twice_is_identity() {
    let position = vec![
        pl(Color::Black, 2, 17),
        pl(Color::White, 18, 0),
        pl(Color::Black, 9, 9),
        pl(Color::White, 4, 4),
    ];
    let twice = get_mirrored(&get_mirrored(&position));
    assert_eq!(position, twice);
}

#[test]
fn test_check_within_one_quadrant() {
    assert!(check_within_one_quadrant(&[]));
    assert!(check_within_one_quadrant(&[pl(Color::Black, 5, 5)]));
    assert!(check_within_one_quadrant(&[pl(Color::Black, 5, 5), pl(Color::White, 7, 3)]));
    assert!(!check_within_one_quadrant(&[pl(Color::Black, 5, 5), pl(Color::White, 15, 15)]));
    assert!(!check_within_one_quadrant(&[pl(Color::Black, 9, 5)]));
    assert!(!check_within_one_quadrant(&[pl(Color::Black, 5, 9)]));
    assert!(!check_within_one_quadrant(&[pl(Color::Black, 9, 9)]));
}

#[test]
fn test_match_game_finds_latest_index() {
    let moves = vec![
        pl(Color::Black, 3, 3),
        pl(Color::White, 15, 15),
        pl(Color::Black, 3, 15),
    ];
    assert_eq!(match_game(&[pl(Color::Black, 3, 3)], &moves), Some(0));
    assert_eq!(
        match_game(&[pl(Color::White, 15, 15), pl(Color::Black, 3, 3)], &moves),
        Some(1)
    );
    assert_eq!(match_game(&[pl(Color::White, 3, 3)], &moves), None);
    assert_eq!(match_game(&[], &moves), Some(0));
}

#[test]
fn test_goboard_new() {
    let board = GoBoard::new();
    assert!(board.position.is_empty());
    assert!(board.captures.is_empty());
    assert!(board.groups.is_empty());
}

#[test]
fn test_goboard_single_move() {
    let mut board = GoBoard::new();
    let move_ = pl(Color::Black, 5, 5);
    board.make_move(&move_);
    assert_eq!(board.position.len(), 1, "Position should have 1 stone");
    assert_eq!(board.groups.len(), 1, "Groups should have 1 group");
    assert_eq!(board.groups[0].len(), 1, "Group should have 1 stone");
    assert_eq!(board.groups[0][0], move_, "Group should contain the move");
}

#[test]
fn test_goboard_connected_group() {
    let mut board = GoBoard::new();
    let move1 = pl(Color::Black, 5, 5);
    let move2 = pl(Color::Black, 5, 6);
    board.make_move(&move1);
    board.make_move(&move2);
    assert_eq!(board.position.len(), 2);
    assert_eq!(board.groups.len(), 1);
    assert_eq!(board.groups[0].len(), 2);
    assert!(board.groups[0].contains(&move1));
    assert!(board.groups[0].contains(&move2));
}

#[test]
fn test_goboard_capture() {
    let mut board = GoBoard::new();
    board.make_move(&pl(Color::White, 5, 5));
    board.make_move(&pl(Color::Black, 5, 4));
    board.make_move(&pl(Color::Black, 5, 6));
    board.make_move(&pl(Color::Black, 4, 5));
    board.make_move(&pl(Color::Black, 6, 5));
    assert_eq!(board.position.len(), 4);
    assert_eq!(board.captures.len(), 1);
    assert_eq!(board.captures[0].len(), 1);
    assert_eq!(board.captures[0][0].color, Color::White);
    assert_eq!(board.captures[0][0].point, Point { x: 5, y: 5 });
}

#[test]
fn test_goboard_suicide_move() {
    let mut board = GoBoard::new();
    board.make_move(&pl(Color::White, 5, 4));
    board.make_move(&pl(Color::White, 5, 6));
    board.make_move(&pl(Color::White, 4, 5));
    board.make_move(&pl(Color::White, 6, 5));
    board.make_move(&pl(Color::Black, 5, 5));
    assert_eq!(board.position.len(), 4);
    assert_eq!(board.captures.len(), 1);
    assert_eq!(board.captures[0].len(), 1);
    assert_eq!(board.captures[0][0].color, Color::Black);
    assert_eq!(board.captures[0][0].point, Point { x: 5, y: 5 });
}

#[test]
fn test_goboard_multiple_groups() {
    let mut board = GoBoard::new();
    board.make_move(&pl(Color::Black, 5, 5));
    board.make_move(&pl(Color::Black, 5, 6));
    board.make_move(&pl(Color::Black, 15, 15));
    board.make_move(&pl(Color::Black, 15, 16));
    assert_eq!(board.position.len(), 4);
    assert_eq!(board.groups.len(), 2);
    assert_eq!(board.groups[0].len(), 2);
    assert_eq!(board.groups[1].len(), 2);
}

#[test]
fn test_goboard_merge_groups() {
    let mut board = GoBoard::new();
    board.make_move(&pl(Color::Black, 5, 5));
    board.make_move(&pl(Color::Black, 5, 6));
    board.make_move(&pl(Color::Black, 7, 5));
    board.make_move(&pl(Color::Black, 7, 6));
    board.make_move(&pl(Color::Black, 6, 5));
    assert_eq!(board.position.len(), 5);
    assert_eq!(board.groups.len(), 1);
    assert_eq!(board.groups[0].len(), 5);
}

#[test]
fn test_capture_single_stone_sequence() {
    let moves = vec![
        pl(Color::Black, 5, 5),
        pl(Color::White, 5, 4),
        pl(Color::Black, 10, 10),
        pl(Color::White, 5, 6),
        pl(Color::White, 4, 5),
        pl(Color::White, 6, 5),
    ];
    let mut board = GoBoard::new();
    for m in &moves {
        board.make_move(m);
    }
    assert_eq!(board.position.len(), 5);
    assert!(!board.position.contains(&pl(Color::Black, 5, 5)));
    let captures = baduk_search::builder::compute_captures(&moves);
    assert_eq!(captures.len(), 1);
    assert_eq!(captures[0].move_number, 5);
    assert_eq!(captures[0].stones, vec![pl(Color::Black, 5, 5)]);
}

#[test]
fn test_duplicate_move_is_ignored() {
    let mut board = GoBoard::new();
    board.make_move(&pl(Color::Black, 5, 5));
    let removed = board.make_move(&pl(Color::White, 5, 5));
    assert!(removed.is_empty());
    assert_eq!(board.position.len(), 1);
    assert_eq!(board.position[0], pl(Color::Black, 5, 5));
}

#[test]
fn test_pack_unpack_placements_round_trip() {
    let mut placements = Vec::new();
    for i in 0..500u32 {
        let x = (i * 7 % 19) as u8;
        let y = (i * 11 % 19) as u8;
        let color = if i % 2 == 0 { Color::Black } else { Color::White };
        placements.push(pl(color, x, y));
    }
    let packed = pack_placements(&placements);
    let (unpacked, used) = unpack_placements(&packed);
    assert_eq!(unpacked, placements);
    assert_eq!(used, packed.len());
}

#[test]
fn test_pack_unpack_placements_empty() {
    let packed = pack_placements(&[]);
    assert_eq!(packed, vec![0u8, 0u8]);
    let (unpacked, used) = unpack_placements(&packed);
    assert!(unpacked.is_empty());
    assert_eq!(used, 2);
}

#[test]
fn test_pack_unpack_captures_round_trip() {
    let captures = vec![
        CaptureEntry { move_number: 5, stones: vec![pl(Color::Black, 5, 5)] },
        CaptureEntry {
            move_number: 40,
            stones: vec![pl(Color::White, 0, 0), pl(Color::White, 18, 18)],
        },
    ];
    let packed = pack_captures(&captures);
    let unpacked = unpack_captures(&packed);
    assert_eq!(unpacked, captures);
}

#[test]
fn test_get_connected_groups() {
    assert!(get_connected_groups(&[]).is_empty());

    let single_stone = vec![pl(Color::Black, 5, 5)];
    let groups = get_connected_groups(&single_stone);
    assert_eq!(groups.len(), 1);
    assert_eq!(groups[0].len(), 1);

    let connected_stones = vec![pl(Color::Black, 5, 5), pl(Color::Black, 5, 6)];
    let groups = get_connected_groups(&connected_stones);
    assert_eq!(groups.len(), 1);
    assert_eq!(groups[0].len(), 2);

    let separate_groups = vec![
        pl(Color::Black, 5, 5),
        pl(Color::Black, 5, 6),
        pl(Color::White, 10, 10),
        pl(Color::White, 10, 11),
    ];
    let groups = get_connected_groups(&separate_groups);
    assert_eq!(groups.len(), 2);
    assert_eq!(groups[0].len(), 2);
    assert_eq!(groups[1].len(), 2);

    let diagonal_stones = vec![pl(Color::Black, 5, 5), pl(Color::Black, 6, 6)];
    let groups = get_connected_groups(&diagonal_stones);
    assert_eq!(groups.len(), 2);
    assert_eq!(groups[0].len(), 1);
    assert_eq!(groups[1].len(), 1);
}

#[test]
fn test_get_group_liberties() {
    let position = vec![pl(Color::Black, 5, 5)];
    let groups = get_connected_groups(&position);
    let liberties = get_group_liberties(&groups[0], &position);
    assert_eq!(liberties.len(), 4);

    let surrounded = vec![
        pl(Color::Black, 5, 5),
        pl(Color::White, 5, 4),
        pl(Color::White, 5, 6),
        pl(Color::White, 4, 5),
        pl(Color::White, 6, 5),
    ];
    let groups = get_connected_groups(&surrounded);
    let liberties = get_group_liberties(&groups[0], &surrounded);
    assert_eq!(liberties.len(), 0);

    let group_with_shared_liberties = vec![pl(Color::Black, 5, 5), pl(Color::Black, 5, 6)];
    let groups = get_connected_groups(&group_with_shared_liberties);
    let liberties = get_group_liberties(&groups[0], &group_with_shared_liberties);
    assert_eq!(liberties.len(), 6);
}

#[test]
fn test_get_captured_groups() {
    let position = vec![pl(Color::Black, 5, 5), pl(Color::White, 10, 10)];
    let captured = get_captured_groups(&position);
    assert!(captured.is_empty());

    let position_with_capture = vec![
        pl(Color::Black, 5, 5),
        pl(Color::White, 5, 4),
        pl(Color::White, 5, 6),
        pl(Color::White, 4, 5),
        pl(Color::White, 6, 5),
    ];
    let captured = get_captured_groups(&position_with_capture);
    assert_eq!(captured.len(), 1);
    assert_eq!(captured[0].len(), 1);
    assert_eq!(captured[0][0].color, Color::Black);

    let multiple_captures = vec![
        pl(Color::Black, 5, 5),
        pl(Color::White, 5, 4),
        pl(Color::White, 5, 6),
        pl(Color::White, 4, 5),
        pl(Color::White, 6, 5),
        pl(Color::Black, 15, 15),
        pl(Color::White, 15, 14),
        pl(Color::White, 15, 16),
        pl(Color::White, 14, 15),
        pl(Color::White, 16, 15),
    ];
    let captured = get_captured_groups(&multiple_captures);
    assert_eq!(captured.len(), 2);
    assert_eq!(captured[0].len(), 1);
    assert_eq!(captured[1].len(), 1);
    assert_eq!(captured[0][0].color, Color::Black);
    assert_eq!(captured[1][0].color, Color::Black);
}

#[test]
fn test_calculate_position() {
    let empty_game: Vec<Placement> = vec![];
    let state = calculate_position(&empty_game);
    assert!(state.position.is_empty());
    assert!(state.captures.is_empty());
    assert_eq!(state.number_of_moves, 0);

    let capture_sequence = vec![
        pl(Color::Black, 5, 5),
        pl(Color::White, 5, 4),
        pl(Color::Black, 10, 10),
        pl(Color::White, 5, 6),
        pl(Color::White, 4, 5),
        pl(Color::White, 6, 5),
    ];
    let state = calculate_position(&capture_sequence);
    assert_eq!(state.position.len(), 5);
    assert_eq!(state.captures.len(), 1);
    assert_eq!(state.captures[0].color, Color::Black);
    assert_eq!(state.captures[0].point, Point { x: 5, y: 5 });
    assert_eq!(state.number_of_moves, 6);

    let multiple_captures = vec![
        pl(Color::Black, 5, 5),
        pl(Color::Black, 15, 15),
        pl(Color::White, 5, 4),
        pl(Color::White, 5, 6),
        pl(Color::White, 4, 5),
        pl(Color::White, 6, 5),
        pl(Color::White, 15, 14),
        pl(Color::White, 15, 16),
        pl(Color::White, 14, 15),
        pl(Color::White, 16, 15),
    ];
    let state = calculate_position(&multiple_captures);
    assert_eq!(state.position.len(), 8);
    assert_eq!(state.captures.len(), 2);
    assert!(state.captures.iter().all(|p| p.color == Color::Black));
    assert_eq!(state.number_of_moves, 10);
}

#[test]
fn test_batched_replay_matches_board_replay() {
    let moves = vec![
        pl(Color::Black, 5, 5),
        pl(Color::White, 5, 4),
        pl(Color::Black, 10, 10),
        pl(Color::White, 5, 6),
        pl(Color::White, 4, 5),
        pl(Color::White, 6, 5),
        pl(Color::Black, 0, 0),
        pl(Color::White, 0, 1),
        pl(Color::White, 1, 0),
    ];
    let state = calculate_position(&moves);
    let mut board = GoBoard::new();
    let mut removed = Vec::new();
    for m in &moves {
        removed.extend(board.make_move(m));
    }
    let mut batched_sorted = state.position.clone();
    let mut incremental_sorted = board.position.clone();
    batched_sorted.sort();
    incremental_sorted.sort();
    assert_eq!(batched_sorted, incremental_sorted);
    removed.sort();
    let mut captures_sorted = state.captures.clone();
    captures_sorted.sort();
    assert_eq!(captures_sorted, removed);
}
