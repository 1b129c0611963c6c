use rule_mining::replay::{ChessMove, Color, Piece, PieceEvent, ReplayError, Role, Tracker};

fn normal(role: Role, from: u8, to: u8) -> ChessMove {
    ChessMove::Normal { role, from, to, capture: None, promotion: None }
}

fn white(role: Role, file: u8) -> Piece {
    Piece { color: Color::White, role, starting_file: Some(file) }
}

fn black(role: Role, file: u8) -> Piece {
    Piece { color: Color::Black, role, starting_file: Some(file) }
}

#[test]
fn start_position_is_set_up() {
    let mut t = Tracker::new();
    assert_eq!(t.piece_at(4), None);
    t.begin_game();
    assert_eq!(t.piece_at(4), Some(white(Role::King, 4)));
    assert_eq!(t.piece_at(3), Some(white(Role::Queen, 3)));
    assert_eq!(t.piece_at(9), Some(white(Role::Pawn, 1)));
    assert_eq!(t.piece_at(62), Some(black(Role::Knight, 6)));
    assert_eq!(t.piece_at(56), Some(black(Role::Rook, 0)));
    assert_eq!(t.piece_at(28), None);
    assert_eq!(t.piece_at(64), None);
    assert_eq!(t.finish(None).len(), 32);
}

#[test]
fn capture_reports_both_pieces_and_move_number() {
    let mut t = Tracker::new();
    t.begin_game();
    assert_eq!(t.play(normal(Role::Pawn, 12, 28)), Ok(vec![])); // e4
    assert_eq!(t.play(normal(Role::Pawn, 51, 35)), Ok(vec![])); // d5
    let ev = t
        .play(ChessMove::Normal { role: Role::Pawn, from: 28, to: 35, capture: Some(Role::Pawn), promotion: None })
        .unwrap();
    assert_eq!(ev, vec![PieceEvent::Captured { piece: black(Role::Pawn, 3), square: 35, moves: 2, by: Some(white(Role::Pawn, 4)) }]);
    assert_eq!(t.moves(), 2);
    assert_eq!(t.piece_at(35), Some(white(Role::Pawn, 4)));
    assert_eq!(t.piece_at(28), None);
}

#[test]
fn refused_moves_change_nothing() {
    let mut t = Tracker::new();
    t.begin_game();
    assert_eq!(t.play(normal(Role::Pawn, 28, 36)), Err(ReplayError::MissingPiece));
    assert_eq!(t.play(normal(Role::Knight, 12, 28)), Err(ReplayError::PieceMismatch));
    assert_eq!(t.play(normal(Role::Rook, 0, 8)), Err(ReplayError::SquareOccupied));
    assert_eq!(t.play(normal(Role::Rook, 0, 64)), Err(ReplayError::InvalidSquare));
    assert_eq!(t.moves(), 0);
    assert_eq!(t.piece_at(12), Some(white(Role::Pawn, 4)));
}

#[test]
fn castling_moves_king_and_rook() {
    let mut t = Tracker::new();
    t.begin_game();
    assert_eq!(t.play(ChessMove::Castle { king: 4, rook: 7 }), Err(ReplayError::SquareOccupied));
    t.play(normal(Role::Knight, 6, 21)).unwrap();
    t.play(normal(Role::Pawn, 52, 44)).unwrap();
    t.play(normal(Role::Pawn, 14, 22)).unwrap();
    t.play(normal(Role::Pawn, 51, 43)).unwrap();
    t.play(normal(Role::Bishop, 5, 14)).unwrap();
    t.play(normal(Role::Pawn, 50, 42)).unwrap();
    assert_eq!(t.play(ChessMove::Castle { king: 4, rook: 7 }), Ok(vec![]));
    assert_eq!(t.piece_at(6), Some(white(Role::King, 4)));
    assert_eq!(t.piece_at(5), Some(white(Role::Rook, 7)));
    assert_eq!(t.piece_at(4), None);
    assert_eq!(t.piece_at(7), None);
}

#[test]
fn en_passant_and_promotion() {
    let mut t = Tracker::new();
    t.begin_game();
    t.play(normal(Role::Pawn, 12, 28)).unwrap(); // e4
    t.play(normal(Role::Pawn, 48, 40)).unwrap(); // a6
    t.play(normal(Role::Pawn, 28, 36)).unwrap(); // e5
    t.play(normal(Role::Pawn, 53, 37)).unwrap(); // f5
    let ev = t.play(ChessMove::EnPassant { from: 36, to: 45 }).unwrap();
    assert_eq!(ev, vec![PieceEvent::Captured { piece: black(Role::Pawn, 5), square: 37, moves: 3, by: Some(white(Role::Pawn, 4)) }]);
    assert_eq!(t.piece_at(37), None);
    assert_eq!(t.piece_at(45), Some(white(Role::Pawn, 4)));
    t.play(normal(Role::Pawn, 40, 32)).unwrap(); // a5
    t.play(ChessMove::Normal { role: Role::Pawn, from: 45, to: 54, capture: Some(Role::Pawn), promotion: None }).unwrap();
    t.play(normal(Role::Pawn, 32, 24)).unwrap(); // a4
    let ev = t
        .play(ChessMove::Normal { role: Role::Pawn, from: 54, to: 63, capture: Some(Role::Rook), promotion: Some(Role::Queen) })
        .unwrap();
    assert_eq!(ev.len(), 2);
    assert_eq!(ev[1], PieceEvent::Promoted { piece: white(Role::Pawn, 4), square: 63, moves: 5 });
    assert_eq!(t.piece_at(63), Some(Piece { color: Color::White, role: Role::Queen, starting_file: None }));
}

#[test]
fn finish_takes_the_losing_king() {
    let mut t = Tracker::new();
    t.begin_game();
    let report = t.finish(Some(Color::White));
    assert!(report.contains(&PieceEvent::Captured { piece: black(Role::King, 4), square: 60, moves: 0, by: None }));
    assert!(report.contains(&PieceEvent::Survived { piece: white(Role::King, 4), square: 4, moves: 0 }));
    assert_eq!(report[0], PieceEvent::Survived { piece: white(Role::Rook, 0), square: 0, moves: 0 });
    let drawn = t.finish(None);
    assert!(drawn.iter().all(|e| matches!(e, PieceEvent::Survived { .. })));
}
