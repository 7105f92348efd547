use chessio::board::is_coord_in_board;
use chessio::moves::get_distance_between_direct_coords;
use chessio::{Board, Game, Piece, PieceType, Side, Tile};

fn piece(kind: PieceType, side: Side) -> Option<Piece> {
    Some(Piece::new(kind, side))
}

fn sorted(mut v: Vec<(usize, usize)>) -> Vec<(usize, usize)> {
    v.sort();
    v
}

/// Kings far apart so that king moves are generated at all.
fn board_with_kings() -> Board {
    let mut b = Board::new();
    b.set(0, 0, piece(PieceType::King, Side::Black));
    b.set(7, 7, piece(PieceType::King, Side::White));
    b
}

/// Black king on g8 behind its pawns, white rook on a1, white king on e1.
fn back_rank_position(with_h_pawn: bool) -> Board {
    let mut b = Board::new();
    b.set(6, 0, piece(PieceType::King, Side::Black));
    b.set(5, 1, piece(PieceType::Pawn, Side::Black));
    b.set(6, 1, piece(PieceType::Pawn, Side::Black));
    if with_h_pawn {
        b.set(7, 1, piece(PieceType::Pawn, Side::Black));
    }
    b.set(0, 7, piece(PieceType::Rook, Side::White));
    b.set(4, 7, piece(PieceType::King, Side::White));
    b
}

fn count_legal_moves(game: &Game, side: Side) -> usize {
    let mut n = 0;
    for y in 0..8 {
        for x in 0..8 {
            if let Some(p) = game.tiles.get(x, y) {
                if p.side == side {
                    n += game
                        .get_piece_available_moves_with_check((x as i32, y as i32))
                        .len();
                }
            }
        }
    }
    n
}

fn play(game: &mut Game, from: (i32, i32), to: (i32, i32)) {
    game.start_drag_event(from);
    game.end_drag_event(to);
}

#[test]
fn opening_position_is_standard() {
    let game = Game::new();
    let back = [
        PieceType::Rook,
        PieceType::Knight,
        PieceType::Bishop,
        PieceType::Queen,
        PieceType::King,
        PieceType::Bishop,
        PieceType::Knight,
        PieceType::Rook,
    ];
    for x in 0..8 {
        assert_eq!(game.tiles.get(x, 0), piece(back[x], Side::Black));
        assert_eq!(game.tiles.get(x, 1), piece(PieceType::Pawn, Side::Black));
        assert_eq!(game.tiles.get(x, 6), piece(PieceType::Pawn, Side::White));
        assert_eq!(game.tiles.get(x, 7), piece(back[x], Side::White));
        for y in 2..6 {
            assert_eq!(game.tiles.get(x, y), None);
        }
    }
    assert_eq!(game.get_side_on_move(), Side::White);
    assert!(game.move_records.is_empty());
    assert_eq!(game.is_check, None);
    assert_eq!(game.victor, None);
}

#[test]
fn scenario_pawn_double_step_is_committed() {
    let mut game = Game::new();
    game.start_drag_event((4, 6));
    assert_eq!(game.hovered_piece_coords, Some((4, 6)));
    game.end_drag_event((4, 4));
    assert_eq!(game.tiles.get(4, 6), None);
    let moved = game.tiles.get(4, 4).unwrap();
    assert_eq!(moved.kind, PieceType::Pawn);
    assert_eq!(moved.side, Side::White);
    assert!(moved.did_move);
    assert_eq!(game.move_records.len(), 1);
    let rec = game.move_records[0];
    assert_eq!(rec.from, (4, 6));
    assert_eq!(rec.to, (4, 4));
    assert_eq!(rec.kind, PieceType::Pawn);
    assert_eq!(rec.side, Side::White);
    assert_eq!(rec.taken_piece, None);
    assert_eq!(game.hovered_piece_coords, None);
    assert_eq!(game.get_side_on_move(), Side::Black);
}

#[test]
fn scenario_pawn_triple_step_is_rejected() {
    let mut game = Game::new();
    game.start_drag_event((4, 6));
    game.end_drag_event((4, 3));
    assert_eq!(game.move_records.len(), 0);
    assert_eq!(game.hovered_piece_coords, None);
    assert_eq!(game.tiles.get(4, 6), piece(PieceType::Pawn, Side::White));
    assert_eq!(game.tiles.get(4, 3), None);
    assert_eq!(game.get_side_on_move(), Side::White);
}

#[test]
fn scenario_single_escape_from_check() {
    let mut game = Game::with_board(back_rank_position(false));
    play(&mut game, (0, 7), (0, 0));
    assert_eq!(game.move_records.len(), 1);
    assert_eq!(game.is_check, Some(Side::Black));
    assert_eq!(game.victor, None);
    assert_eq!(count_legal_moves(&game, Side::Black), 1);
    assert_eq!(game.get_piece_available_moves_with_check((6, 0)), vec![(7, 1)]);
    play(&mut game, (6, 0), (7, 1));
    assert_eq!(game.move_records.len(), 2);
    assert_eq!(game.is_check, None);
    assert_eq!(game.victor, None);
    assert_eq!(game.tiles.get(7, 1).map(|p| p.kind), Some(PieceType::King));
}

#[test]
fn scenario_checkmate_sets_victor() {
    let mut game = Game::with_board(back_rank_position(true));
    play(&mut game, (0, 7), (0, 0));
    assert_eq!(game.is_check, Some(Side::Black));
    assert_eq!(count_legal_moves(&game, Side::Black), 0);
    // The winner is the side that delivered mate.
    assert_eq!(game.victor, Some(Side::White));
}

#[test]
fn input_is_ignored_after_checkmate() {
    let mut game = Game::with_board(back_rank_position(true));
    play(&mut game, (0, 7), (0, 0));
    assert_eq!(game.victor, Some(Side::White));
    game.start_drag_event((5, 1));
    assert_eq!(game.hovered_piece_coords, None);
    game.end_drag_event((5, 2));
    assert_eq!(game.move_records.len(), 1);
    assert_eq!(game.tiles.get(5, 1), piece(PieceType::Pawn, Side::Black));
}

#[test]
fn every_generated_move_is_on_the_board() {
    let mut positions = vec![Game::new()];
    let mut corners = board_with_kings();
    corners.set(7, 0, piece(PieceType::Queen, Side::White));
    corners.set(0, 7, piece(PieceType::Knight, Side::Black));
    corners.set(3, 0, piece(PieceType::Bishop, Side::White));
    corners.set(0, 4, piece(PieceType::Rook, Side::Black));
    corners.set(7, 3, piece(PieceType::Pawn, Side::White));
    corners.set(0, 6, piece(PieceType::Pawn, Side::Black));
    positions.push(Game::with_board(corners));
    for game in &positions {
        for y in 0..8 {
            for x in 0..8 {
                for (mx, my) in game.get_piece_available_moves((x, y)) {
                    assert!(mx < 8 && my < 8);
                }
            }
        }
    }
}

#[test]
fn rook_ray_stops_at_first_piece() {
    let mut b = board_with_kings();
    b.set(3, 3, piece(PieceType::Rook, Side::White));
    b.set(3, 1, piece(PieceType::Pawn, Side::Black));
    b.set(5, 3, piece(PieceType::Pawn, Side::White));
    let game = Game::with_board(b);
    let moves = game.get_piece_available_moves((3, 3));
    // Up the file: (3,2), then the black pawn on (3,1) is taken; (3,0) is past it.
    assert!(moves.contains(&(3, 2)));
    assert!(moves.contains(&(3, 1)));
    assert!(!moves.contains(&(3, 0)));
    // Right along the rank: (4,3), then its own pawn on (5,3) blocks.
    assert!(moves.contains(&(4, 3)));
    assert!(!moves.contains(&(5, 3)));
    assert!(!moves.contains(&(6, 3)));
    assert_eq!(
        moves,
        vec![(4, 3), (2, 3), (1, 3), (0, 3), (3, 4), (3, 5), (3, 6), (3, 7), (3, 2), (3, 1)]
    );
}

#[test]
fn bishop_and_queen_rays() {
    let mut b = board_with_kings();
    b.set(4, 4, piece(PieceType::Bishop, Side::Black));
    b.set(6, 6, piece(PieceType::Pawn, Side::White));
    b.set(2, 2, piece(PieceType::Pawn, Side::Black));
    let game = Game::with_board(b);
    let moves = sorted(game.get_piece_available_moves((4, 4)));
    assert_eq!(
        moves,
        sorted(vec![(5, 5), (6, 6), (5, 3), (6, 2), (7, 1), (3, 5), (2, 6), (1, 7), (3, 3)])
    );

    let mut q = board_with_kings();
    q.set(3, 4, piece(PieceType::Queen, Side::White));
    let game = Game::with_board(q);
    // 13 diagonal squares and 14 orthogonal ones from d4 on an empty board.
    assert_eq!(game.get_piece_available_moves((3, 4)).len(), 27);
}

#[test]
fn knight_in_the_centre_has_eight_distinct_moves() {
    let mut b = board_with_kings();
    b.set(4, 4, piece(PieceType::Knight, Side::White));
    let game = Game::with_board(b);
    let moves = game.get_piece_available_moves((4, 4));
    assert_eq!(moves.len(), 8);
    let mut dedup = sorted(moves.clone());
    dedup.dedup();
    assert_eq!(dedup.len(), 8);
    assert_eq!(
        sorted(moves),
        sorted(vec![(3, 2), (5, 2), (6, 3), (6, 5), (5, 6), (3, 6), (2, 5), (2, 3)])
    );
}

#[test]
fn knight_skips_own_pieces_and_the_edge() {
    let game = Game::new();
    assert_eq!(sorted(game.get_piece_available_moves((1, 7))), vec![(0, 5), (2, 5)]);
}

#[test]
fn king_keeps_away_from_the_enemy_king() {
    let mut b = Board::new();
    b.set(4, 4, piece(PieceType::King, Side::White));
    b.set(4, 2, piece(PieceType::King, Side::Black));
    let game = Game::with_board(b);
    let moves = sorted(game.get_piece_available_moves((4, 4)));
    assert_eq!(moves, sorted(vec![(5, 4), (5, 5), (4, 5), (3, 5), (3, 4)]));
}

#[test]
fn king_without_enemy_king_has_no_moves() {
    let mut b = Board::new();
    b.set(4, 4, piece(PieceType::King, Side::White));
    let game = Game::with_board(b);
    assert!(game.get_piece_available_moves((4, 4)).is_empty());
}

#[test]
fn empty_square_has_no_moves() {
    let game = Game::new();
    assert!(game.get_piece_available_moves((4, 4)).is_empty());
    assert!(game.get_piece_available_moves_with_check((4, 4)).is_empty());
}

#[test]
fn pawn_moves_and_captures() {
    let mut b = board_with_kings();
    b.set(3, 6, piece(PieceType::Pawn, Side::White));
    b.set(2, 5, piece(PieceType::Knight, Side::Black));
    b.set(4, 5, piece(PieceType::Knight, Side::White));
    let game = Game::with_board(b);
    assert_eq!(
        game.get_piece_available_moves((3, 6)),
        vec![(3, 5), (3, 4), (2, 5)]
    );

    let mut blocked = board_with_kings();
    blocked.set(3, 1, piece(PieceType::Pawn, Side::Black));
    blocked.set(3, 2, piece(PieceType::Pawn, Side::White));
    let game = Game::with_board(blocked);
    assert!(game.get_piece_available_moves((3, 1)).is_empty());

    let mut moved = board_with_kings();
    moved.set(
        3,
        1,
        Some(Piece { kind: PieceType::Pawn, side: Side::Black, did_move: true }),
    );
    let game = Game::with_board(moved);
    assert_eq!(game.get_piece_available_moves((3, 1)), vec![(3, 2)]);
}

#[test]
fn pawn_double_step_needs_both_squares_empty() {
    let mut b = board_with_kings();
    b.set(3, 6, piece(PieceType::Pawn, Side::White));
    b.set(3, 4, piece(PieceType::Pawn, Side::Black));
    let game = Game::with_board(b);
    assert_eq!(game.get_piece_available_moves((3, 6)), vec![(3, 5)]);
}

#[test]
fn legal_moves_never_expose_the_king() {
    let mut b = Board::new();
    b.set(4, 7, piece(PieceType::King, Side::White));
    b.set(4, 6, piece(PieceType::Rook, Side::White));
    b.set(4, 0, piece(PieceType::Rook, Side::Black));
    b.set(0, 0, piece(PieceType::King, Side::Black));
    let game = Game::with_board(b);
    // The pinned rook may only move along the file.
    let pseudo = game.get_piece_available_moves((4, 6));
    let legal = game.get_piece_available_moves_with_check((4, 6));
    assert!(pseudo.len() > legal.len());
    assert_eq!(
        sorted(legal.clone()),
        sorted(vec![(4, 5), (4, 4), (4, 3), (4, 2), (4, 1), (4, 0)])
    );
    for y in 0..8 {
        for x in 0..8 {
            if let Some(p) = game.tiles.get(x, y) {
                for m in game.get_piece_available_moves_with_check((x as i32, y as i32)) {
                    let mut trial = game.tiles.snapshot();
                    trial.apply_move((x, y), m);
                    assert!(!game.is_check(p.side, &trial));
                }
            }
        }
    }
}

#[test]
fn sides_alternate() {
    let mut game = Game::new();
    let moves = [((4, 6), (4, 4)), ((4, 1), (4, 3)), ((6, 7), (5, 5)), ((1, 0), (2, 2))];
    for (n, (from, to)) in moves.iter().enumerate() {
        let expected = if n % 2 == 0 { Side::White } else { Side::Black };
        assert_eq!(game.get_side_on_move(), expected);
        play(&mut game, *from, *to);
        assert_eq!(game.move_records.len(), n + 1);
        assert_eq!(game.move_records[n].side, expected);
    }
    assert_eq!(game.get_side_on_move(), Side::White);
}

#[test]
fn wrong_side_cannot_be_selected() {
    let mut game = Game::new();
    game.start_drag_event((4, 1));
    assert_eq!(game.hovered_piece_coords, None);
    game.start_drag_event((4, 4));
    assert_eq!(game.hovered_piece_coords, None);
    game.start_drag_event((-1, 4));
    assert_eq!(game.hovered_piece_coords, None);
    game.start_drag_event((4, 6));
    assert_eq!(game.hovered_piece_coords, Some((4, 6)));
    game.end_drag_event((9, 9));
    assert_eq!(game.hovered_piece_coords, None);
    assert!(game.move_records.is_empty());
}

#[test]
fn drop_without_selection_changes_nothing() {
    let mut game = Game::new();
    game.end_drag_event((4, 4));
    assert!(game.move_records.is_empty());
    assert_eq!(game.tiles.get(4, 4), None);
}

#[test]
fn capture_removes_only_the_taken_piece() {
    let mut b = board_with_kings();
    b.set(3, 3, piece(PieceType::Rook, Side::White));
    b.set(3, 1, piece(PieceType::Knight, Side::Black));
    b.set(6, 2, piece(PieceType::Pawn, Side::Black));
    let mut game = Game::with_board(b);
    let before = game.tiles.snapshot();
    play(&mut game, (3, 3), (3, 1));
    assert_eq!(game.move_records.len(), 1);
    assert_eq!(game.move_records[0].taken_piece, Some(PieceType::Knight));
    let rook = game.tiles.get(3, 1).unwrap();
    assert_eq!(rook.kind, PieceType::Rook);
    assert_eq!(rook.side, Side::White);
    assert!(rook.did_move);
    assert_eq!(game.tiles.get(3, 3), None);
    for y in 0..8 {
        for x in 0..8 {
            if (x, y) != (3, 1) && (x, y) != (3, 3) {
                assert_eq!(game.tiles.get(x, y), before.get(x, y));
            }
        }
    }
}

#[test]
fn check_is_detected_and_cleared() {
    let mut b = Board::new();
    b.set(4, 7, piece(PieceType::King, Side::White));
    b.set(0, 0, piece(PieceType::King, Side::Black));
    b.set(3, 0, piece(PieceType::Rook, Side::Black));
    let game = Game::with_board(b);
    assert!(!game.is_check(Side::White, &game.tiles));
    assert_eq!(game.is_check, None);

    let mut b = Board::new();
    b.set(4, 7, piece(PieceType::King, Side::White));
    b.set(0, 0, piece(PieceType::King, Side::Black));
    b.set(4, 0, piece(PieceType::Rook, Side::Black));
    let mut game = Game::with_board(b);
    assert!(game.is_check(Side::White, &game.tiles));
    assert_eq!(game.is_check, Some(Side::White));
    // Stepping off the file answers the check.
    play(&mut game, (4, 7), (3, 7));
    assert_eq!(game.move_records.len(), 1);
    assert_eq!(game.is_check, None);
}

#[test]
fn no_king_means_no_check() {
    let mut b = Board::new();
    b.set(4, 0, piece(PieceType::Rook, Side::Black));
    assert!(!b.is_check(Side::White));
}

#[test]
fn reset_restores_the_opening() {
    let mut game = Game::new();
    play(&mut game, (4, 6), (4, 4));
    game.start_drag_event((4, 1));
    game.reset();
    assert!(game.move_records.is_empty());
    assert_eq!(game.hovered_piece_coords, None);
    assert_eq!(game.tiles.get(4, 6), piece(PieceType::Pawn, Side::White));
    assert_eq!(game.tiles.get(4, 4), None);
    assert_eq!(game.get_side_on_move(), Side::White);
}

#[test]
fn highlight_marks_one_tile() {
    let mut game = Game::new();
    game.highlight_tile_by_coords((2, 3));
    game.highlight_tile_by_coords((12, 3));
    let tiles = game.tiles_iter();
    assert_eq!(tiles.len(), 64);
    for (x, y, tile) in &tiles {
        assert_eq!(tile.highlighted, (*x, *y) == (2, 3));
    }
    assert_eq!(tiles[9], (1, 1, game.tiles.tile(1, 1)));
    game.clear_highlights();
    assert!(game.tiles_iter().iter().all(|(_, _, t)| !t.highlighted));
    assert_eq!(game.tiles.get(0, 0), piece(PieceType::Rook, Side::Black));
}

#[test]
fn tile_lookup_by_coords() {
    let game = Game::new();
    let (tile, coords) = game.get_tile_on_coords((3, 7)).unwrap();
    assert_eq!(coords, (3, 7));
    assert_eq!(tile.piece, piece(PieceType::Queen, Side::White));
    assert!(game.get_tile_on_coords((8, 0)).is_none());
    assert!(game.get_tile_on_coords((0, -1)).is_none());
}

#[test]
fn tile_basics() {
    let mut t = Tile::new();
    assert_eq!(t.piece, None);
    assert!(!t.highlighted);
    t.highlighted = true;
    t.clear_bg();
    assert!(!t.highlighted);
}

#[test]
fn snapshot_and_restore() {
    let mut b = Board::standard();
    let saved = b.snapshot();
    b.apply_move((4, 6), (4, 4));
    assert_eq!(b.get(4, 6), None);
    b.restore(saved);
    assert_eq!(b.get(4, 6), piece(PieceType::Pawn, Side::White));
    assert_eq!(b.get(4, 4), None);
}

#[test]
fn piece_names() {
    assert_eq!(Piece::new(PieceType::Pawn, Side::White).to_string(), "Pawn");
    assert_eq!(Piece::new(PieceType::Knight, Side::Black).to_string(), "Knight");
    assert_eq!(Piece::new(PieceType::King, Side::Black).to_string(), "King");
    assert_eq!(Side::White.opponent(), Side::Black);
}

#[test]
fn coordinate_helpers() {
    assert!(is_coord_in_board((0, 0)));
    assert!(is_coord_in_board((7, 7)));
    assert!(!is_coord_in_board((8, 0)));
    assert!(!is_coord_in_board((0, -1)));
    assert_eq!(get_distance_between_direct_coords((0, 0), (3, 1)), 3);
    assert_eq!(get_distance_between_direct_coords((4, 4), (3, 5)), 1);
    assert_eq!(get_distance_between_direct_coords((6, 2), (6, 2)), 0);
}

#[test]
fn walk_from_an_edge_square_reaches_the_far_edge() {
    let b = Board::new();
    let mut moves = Vec::new();
    b.get_pieces_linear_moves(&mut moves, (0, 0), (1, 0), Side::White);
    assert_eq!(
        moves,
        vec![(0, 0), (1, 0), (2, 0), (3, 0), (4, 0), (5, 0), (6, 0), (7, 0)]
    );

    let mut diagonal = vec![(9, 9)];
    b.get_pieces_linear_moves(&mut diagonal, (7, 7), (-1, -1), Side::Black);
    assert_eq!(diagonal.len(), 9);
    assert_eq!(diagonal[0], (9, 9));
    assert_eq!(diagonal[8], (0, 0));
}

#[test]
fn walk_from_off_the_board_adds_nothing() {
    let mut b = Board::new();
    b.set(3, 0, piece(PieceType::Pawn, Side::Black));
    let mut moves = vec![(1, 1)];
    b.get_pieces_linear_moves(&mut moves, (-5, 3), (1, 0), Side::White);
    b.get_pieces_linear_moves(&mut moves, (100, -100), (0, 1), Side::White);
    assert_eq!(moves, vec![(1, 1)]);
    // The walk stops on the first piece and takes it only when it is an enemy.
    b.get_pieces_linear_moves(&mut moves, (0, 0), (1, 0), Side::White);
    assert_eq!(moves, vec![(1, 1), (0, 0), (1, 0), (2, 0), (3, 0)]);
    let mut own = Vec::new();
    b.get_pieces_linear_moves(&mut own, (0, 0), (1, 0), Side::Black);
    assert_eq!(own, vec![(0, 0), (1, 0), (2, 0)]);
}

#[test]
fn legal_moves_are_safe_without_the_moved_flag() {
    let mut game = Game::new();
    play(&mut game, (4, 6), (4, 4));
    play(&mut game, (3, 1), (3, 3));
    play(&mut game, (5, 7), (1, 3));
    // Black is in check from the bishop on b5; only answers to it are legal.
    assert_eq!(game.is_check, Some(Side::Black));
    for y in 0..8 {
        for x in 0..8 {
            if let Some(p) = game.tiles.get(x, y) {
                for (tx, ty) in game.get_piece_available_moves_with_check((x as i32, y as i32)) {
                    let mut trial = game.tiles.snapshot();
                    trial.set(tx, ty, Some(p));
                    trial.set(x, y, None);
                    assert!(!trial.is_check(p.side));
                }
            }
        }
    }
    assert!(game.get_piece_available_moves_with_check((0, 1)).is_empty());
    assert_eq!(game.get_piece_available_moves_with_check((2, 1)), vec![(2, 2)]);
}
