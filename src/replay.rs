use vstd::prelude::*;

verus! {

#[derive(Debug, Clone, Copy, PartialEq, Eq, Structural)]
pub enum Color {
    White,
    Black,
}

#[derive(Debug, Clone, Copy, PartialEq, Eq, Structural)]
pub enum Role {
    Pawn,
    Knight,
    Bishop,
    Rook,
    Queen,
    King,
}

/// A piece with its identity: the file it started the game on, or `None` for
/// a piece made by promotion.
#[derive(Debug, Clone, Copy, PartialEq, Eq, Structural)]
pub struct Piece {
    pub color: Color,
    pub role: Role,
    pub starting_file: Option<u8>,
}

/// A move as played on the board. Squares are numbered `file + 8 * rank`
/// from a1 = 0 to h8 = 63; castling names the king's and the rook's squares.
#[derive(Debug, Clone, Copy, PartialEq, Eq, Structural)]
pub enum ChessMove {
    Normal { role: Role, from: u8, to: u8, capture: Option<Role>, promotion: Option<Role> },
    Castle { king: u8, rook: u8 },
    EnPassant { from: u8, to: u8 },
}

/// What happened to a piece, and at which full move.
#[derive(Debug, Clone, Copy, PartialEq, Eq, Structural)]
pub enum PieceEvent {
    /// `piece` was taken on `square`, by `by`; a king of the losing side is
    /// reported taken by nobody at the end of the game.
    Captured { piece: Piece, square: u8, moves: u64, by: Option<Piece> },
    /// `piece` was promoted on `square`.
    Promoted { piece: Piece, square: u8, moves: u64 },
    /// `piece` stood on `square` when the game ended.
    Survived { piece: Piece, square: u8, moves: u64 },
}

/// Why a move cannot be replayed on the tracked board.
#[derive(Debug, Clone, Copy, PartialEq, Eq, Structural)]
pub enum ReplayError {
    /// A square number is 64 or more.
    InvalidSquare,
    /// No piece stands where the move needs one.
    MissingPiece,
    /// The piece found is not of the role or color the move needs.
    PieceMismatch,
    /// The square a piece moves to is already taken.
    SquareOccupied,
}

pub open spec fn back_rank_role(file: int) -> Role {
    if file == 0 || file == 7 {
        Role::Rook
    } else if file == 1 || file == 6 {
        Role::Knight
    } else if file == 2 || file == 5 {
        Role::Bishop
    } else if file == 3 {
        Role::Queen
    } else {
        Role::King
    }
}

/// The piece on square `sq` at the start of a standard game.
pub open spec fn start_piece(sq: int) -> Option<Piece> {
    let file = sq % 8;
    let rank = sq / 8;
    if rank == 0 {
        Some(Piece { color: Color::White, role: back_rank_role(file), starting_file: Some(file as u8) })
    } else if rank == 1 {
        Some(Piece { color: Color::White, role: Role::Pawn, starting_file: Some(file as u8) })
    } else if rank == 6 {
        Some(Piece { color: Color::Black, role: Role::Pawn, starting_file: Some(file as u8) })
    } else if rank == 7 {
        Some(Piece { color: Color::Black, role: back_rank_role(file), starting_file: Some(file as u8) })
    } else {
        None
    }
}

pub open spec fn start_board() -> Seq<Option<Piece>> {
    Seq::new(64, |sq: int| start_piece(sq))
}

/// The rank on which `color`'s pieces start.
pub open spec fn home_rank(color: Color) -> int {
    match color {
        Color::White => 0,
        Color::Black => 7,
    }
}

/// Where the king lands when castling, on the queen side or not.
pub open spec fn castle_king_to(queen_side: bool, color: Color) -> int {
    (if queen_side { 2int } else { 6int }) + 8 * home_rank(color)
}

/// Where the rook lands when castling, on the queen side or not.
pub open spec fn castle_rook_to(queen_side: bool, color: Color) -> int {
    (if queen_side { 3int } else { 5int }) + 8 * home_rank(color)
}

pub open spec fn has_role(p: Option<Piece>, role: Role) -> bool {
    p matches Some(q) && q.role == role
}

/// The board and the events after `m` is played at full move `moves`, or
/// why it cannot be.
pub open spec fn play_spec(b: Seq<Option<Piece>>, m: ChessMove, moves: u64) -> Result<(Seq<Option<Piece>>, Seq<PieceEvent>), ReplayError> {
    match m {
        ChessMove::Normal { role, from, to, capture, promotion } => {
            if from >= 64 || to >= 64 {
                Err(ReplayError::InvalidSquare)
            } else if b[from as int] is None {
                Err(ReplayError::MissingPiece)
            } else if b[from as int]->Some_0.role != role {
                Err(ReplayError::PieceMismatch)
            } else {
                let p = b[from as int]->Some_0;
                let b1 = b.update(from as int, None);
                let taken: Result<Seq<PieceEvent>, ReplayError> = match capture {
                    Some(c) => if b1[to as int] is None {
                        Err(ReplayError::MissingPiece)
                    } else if b1[to as int]->Some_0.role != c || b1[to as int]->Some_0.color == p.color {
                        Err(ReplayError::PieceMismatch)
                    } else {
                        Ok(seq![PieceEvent::Captured { piece: b1[to as int]->Some_0, square: to, moves, by: Some(p) }])
                    },
                    None => if b1[to as int] is Some {
                        Err(ReplayError::SquareOccupied)
                    } else {
                        Ok(Seq::empty())
                    },
                };
                match taken {
                    Err(e) => Err(e),
                    Ok(evs) => match promotion {
                        Some(r) => Ok((
                            b1.update(to as int, Some(Piece { color: p.color, role: r, starting_file: None })),
                            evs.push(PieceEvent::Promoted { piece: p, square: to, moves }),
                        )),
                        None => Ok((b1.update(to as int, Some(p)), evs)),
                    },
                }
            }
        },
        ChessMove::Castle { king, rook } => {
            if king >= 64 || rook >= 64 {
                Err(ReplayError::InvalidSquare)
            } else if b[rook as int] is None || b[king as int] is None || king == rook {
                Err(ReplayError::MissingPiece)
            } else if !has_role(b[rook as int], Role::Rook) || !has_role(b[king as int], Role::King)
                || b[rook as int]->Some_0.color != b[king as int]->Some_0.color {
                Err(ReplayError::PieceMismatch)
            } else {
                let rp = b[rook as int]->Some_0;
                let kp = b[king as int]->Some_0;
                let qs = rook < king;
                let b1 = b.update(rook as int, None).update(king as int, None);
                let ks = castle_king_to(qs, kp.color);
                let rs = castle_rook_to(qs, rp.color);
                if b1[ks] is Some || b1[rs] is Some {
                    Err(ReplayError::SquareOccupied)
                } else {
                    Ok((b1.update(rs, Some(rp)).update(ks, Some(kp)), Seq::empty()))
                }
            }
        },
        ChessMove::EnPassant { from, to } => {
            if from >= 64 || to >= 64 {
                Err(ReplayError::InvalidSquare)
            } else {
                let cs = (to % 8) + 8 * (from / 8);
                if b[cs as int] is None || from == cs || b[from as int] is None {
                    Err(ReplayError::MissingPiece)
                } else if !has_role(b[cs as int], Role::Pawn) || !has_role(b[from as int], Role::Pawn)
                    || b[cs as int]->Some_0.color == b[from as int]->Some_0.color {
                    Err(ReplayError::PieceMismatch)
                } else {
                    let b1 = b.update(cs as int, None).update(from as int, None);
                    if b1[to as int] is Some {
                        Err(ReplayError::SquareOccupied)
                    } else {
                        Ok((
                            b1.update(to as int, b[from as int]),
                            seq![PieceEvent::Captured { piece: b[cs as int]->Some_0, square: cs as u8, moves, by: b[from as int] }],
                        ))
                    }
                }
            }
        },
    }
}

/// The end-of-game event of the piece on `sq`, if any: a king of the side
/// that lost is taken, every other piece survives.
pub open spec fn final_event(b: Seq<Option<Piece>>, sq: int, moves: u64, winner: Option<Color>) -> Option<PieceEvent> {
    match b[sq] {
        None => None,
        Some(p) => if p.role == Role::King && winner is Some && winner != Some(p.color) {
            Some(PieceEvent::Captured { piece: p, square: sq as u8, moves, by: None })
        } else {
            Some(PieceEvent::Survived { piece: p, square: sq as u8, moves })
        },
    }
}

/// The end-of-game events of the squares below `n`, in square order.
pub open spec fn final_events(b: Seq<Option<Piece>>, n: int, moves: u64, winner: Option<Color>) -> Seq<PieceEvent>
    decreases n,
{
    if n <= 0 {
        Seq::empty()
    } else {
        let rest = final_events(b, n - 1, moves, winner);
        match final_event(b, n - 1, moves, winner) {
            Some(e) => rest.push(e),
            None => rest,
        }
    }
}

fn back_rank_role_of(file: u8) -> (r: Role)
    ensures
        r == back_rank_role(file as int),
{
    if file == 0 || file == 7 {
        Role::Rook
    } else if file == 1 || file == 6 {
        Role::Knight
    } else if file == 2 || file == 5 {
        Role::Bishop
    } else if file == 3 {
        Role::Queen
    } else {
        Role::King
    }
}

fn start_piece_at(sq: u8) -> (r: Option<Piece>)
    requires
        sq < 64,
    ensures
        r == start_piece(sq as int),
{
    let file = sq % 8;
    let rank = sq / 8;
    if rank == 0 {
        Some(Piece { color: Color::White, role: back_rank_role_of(file), starting_file: Some(file) })
    } else if rank == 1 {
        Some(Piece { color: Color::White, role: Role::Pawn, starting_file: Some(file) })
    } else if rank == 6 {
        Some(Piece { color: Color::Black, role: Role::Pawn, starting_file: Some(file) })
    } else if rank == 7 {
        Some(Piece { color: Color::Black, role: back_rank_role_of(file), starting_file: Some(file) })
    } else {
        None
    }
}

fn castle_targets(queen_side: bool, color: Color) -> (r: (u8, u8))
    ensures
        r.0 as int == castle_king_to(queen_side, color),
        r.1 as int == castle_rook_to(queen_side, color),
        r.0 < 64,
        r.1 < 64,
{
    let base: u8 = match color {
        Color::White => 0,
        Color::Black => 56,
    };
    if queen_side {
        (base + 2, base + 3)
    } else {
        (base + 6, base + 5)
    }
}

/// The full move number after one more half move.
pub open spec fn next_moves(moves: u64, halfmoves: u64) -> u64 {
    if (halfmoves + 1) % 2 == 1 {
        (moves + 1) as u64
    } else {
        moves
    }
}

/// Follows every piece of a game from square to square, so that captures,
/// promotions and the final position can be reported per piece.
pub struct Tracker {
    board: Vec<Option<Piece>>,
    moves: u64,
    halfmoves: u64,
}

impl Tracker {
    /// The piece on each square, from a1 to h8.
    pub closed spec fn board(&self) -> Seq<Option<Piece>> {
        self.board@
    }

    pub closed spec fn moves_spec(&self) -> u64 {
        self.moves
    }

    /// Half moves played since the tracker was made; unlike the full move
    /// number it runs on from one game into the next.
    pub closed spec fn halfmoves_spec(&self) -> u64 {
        self.halfmoves
    }

    pub closed spec fn wf(&self) -> bool {
        self.board@.len() == 64 && self.moves <= self.halfmoves
    }

    /// A well-formed tracker's board has one entry per square.
    pub proof fn lemma_board_size(&self)
        requires
            self.wf(),
        ensures
            self.board().len() == 64,
            self.moves_spec() <= self.halfmoves_spec(),
    {
    }

    /// A tracker with an empty board.
    pub fn new() -> (r: Tracker)
        ensures
            r.wf(),
            r.board() == Seq::new(64, |sq: int| None::<Piece>),
            r.moves_spec() == 0,
            r.halfmoves_spec() == 0,
    {
        let mut board: Vec<Option<Piece>> = Vec::new();
        let mut i: usize = 0;
        while i < 64
            invariant
                i <= 64,
                board@ =~= Seq::new(i as nat, |sq: int| None::<Piece>),
            decreases 64 - i,
        {
            board.push(None);
            i += 1;
        }
        Tracker { board, moves: 0, halfmoves: 0 }
    }

    /// Sets up the standard starting position and restarts the move count.
    pub fn begin_game(&mut self)
        requires
            old(self).wf(),
        ensures
            final(self).wf(),
            final(self).board() == start_board(),
            final(self).moves_spec() == 0,
            final(self).halfmoves_spec() == old(self).halfmoves_spec(),
    {
        let mut sq: u8 = 0;
        while sq < 64
            invariant
                sq <= 64,
                self.board@.len() == 64,
                self.halfmoves == old(self).halfmoves,
                forall|i: int| 0 <= i < sq ==> self.board@[i] == #[trigger] start_piece(i),
            decreases 64 - sq,
        {
            self.board.set(sq as usize, start_piece_at(sq));
            sq += 1;
        }
        self.moves = 0;
        assert(self.board@ =~= start_board());
    }

    /// The full move number.
    pub fn moves(&self) -> (r: u64)
        ensures
            r == self.moves_spec(),
    {
        self.moves
    }

    /// The piece on square `sq`, if any.
    pub fn piece_at(&self, sq: u8) -> (r: Option<Piece>)
        requires
            self.wf(),
        ensures
            sq < 64 ==> r == self.board()[sq as int],
            sq >= 64 ==> r is None,
    {
        if sq < 64 {
            self.board[sq as usize]
        } else {
            None
        }
    }

    /// Plays `m`: the pieces move, and the captures and promotions it makes
    /// are returned. A move that does not fit the board is refused and
    /// changes nothing.
    #[verifier::rlimit(60)]
    pub fn play(&mut self, m: ChessMove) -> (r: Result<Vec<PieceEvent>, ReplayError>)
        requires
            old(self).wf(),
            old(self).halfmoves_spec() < u64::MAX,
        ensures
            final(self).wf(),
            match play_spec(old(self).board(), m, next_moves(old(self).moves_spec(), old(self).halfmoves_spec())) {
                Ok((b, evs)) => r matches Ok(v) && v@ == evs && final(self).board() == b
                    && final(self).moves_spec() == next_moves(old(self).moves_spec(), old(self).halfmoves_spec())
                    && final(self).halfmoves_spec() == old(self).halfmoves_spec() + 1,
                Err(e) => r == Err::<Vec<PieceEvent>, ReplayError>(e) && final(self).board() == old(self).board()
                    && final(self).moves_spec() == old(self).moves_spec()
                    && final(self).halfmoves_spec() == old(self).halfmoves_spec(),
            },
    {
        let h = self.halfmoves + 1;
        let mv = if h % 2 == 1 {
            self.moves + 1
        } else {
            self.moves
        };
        let ghost b = self.board@;
        let mut events: Vec<PieceEvent> = Vec::new();
        match m {
            ChessMove::Normal { role, from, to, capture, promotion } => {
                if from >= 64 || to >= 64 {
                    return Err(ReplayError::InvalidSquare);
                }
                let p = match self.board[from as usize] {
                    None => {
                        return Err(ReplayError::MissingPiece);
                    },
                    Some(p) => p,
                };
                if p.role != role {
                    return Err(ReplayError::PieceMismatch);
                }
                let target = if to == from {
                    None
                } else {
                    self.board[to as usize]
                };
                assert(target == b.update(from as int, None)[to as int]);
                match capture {
                    Some(c) => match target {
                        None => {
                            return Err(ReplayError::MissingPiece);
                        },
                        Some(q) => {
                            if q.role != c || q.color == p.color {
                                return Err(ReplayError::PieceMismatch);
                            }
                            events.push(PieceEvent::Captured { piece: q, square: to, moves: mv, by: Some(p) });
                        },
                    },
                    None => {
                        if target.is_some() {
                            return Err(ReplayError::SquareOccupied);
                        }
                    },
                }
                self.board.set(from as usize, None);
                match promotion {
                    Some(r) => {
                        self.board.set(to as usize, Some(Piece { color: p.color, role: r, starting_file: None }));
                        events.push(PieceEvent::Promoted { piece: p, square: to, moves: mv });
                    },
                    None => {
                        self.board.set(to as usize, Some(p));
                    },
                }
            },
            ChessMove::Castle { king, rook } => {
                if king >= 64 || rook >= 64 {
                    return Err(ReplayError::InvalidSquare);
                }
                let rp = self.board[rook as usize];
                let kp = self.board[king as usize];
                let (rp, kp) = match (rp, kp) {
                    (Some(rp), Some(kp)) => {
                        if king == rook {
                            return Err(ReplayError::MissingPiece);
                        }
                        (rp, kp)
                    },
                    _ => {
                        return Err(ReplayError::MissingPiece);
                    },
                };
                if rp.role != Role::Rook || kp.role != Role::King || rp.color != kp.color {
                    return Err(ReplayError::PieceMismatch);
                }
                let (ks, _) = castle_targets(rook < king, kp.color);
                let (_, rs) = castle_targets(rook < king, rp.color);
                let ghost b1 = b.update(rook as int, None).update(king as int, None);
                let k_taken = ks != rook && ks != king && self.board[ks as usize].is_some();
                let r_taken = rs != rook && rs != king && self.board[rs as usize].is_some();
                assert(k_taken == (b1[ks as int] is Some));
                assert(r_taken == (b1[rs as int] is Some));
                if k_taken || r_taken {
                    return Err(ReplayError::SquareOccupied);
                }
                self.board.set(rook as usize, None);
                self.board.set(king as usize, None);
                self.board.set(rs as usize, Some(rp));
                self.board.set(ks as usize, Some(kp));
            },
            ChessMove::EnPassant { from, to } => {
                if from >= 64 || to >= 64 {
                    return Err(ReplayError::InvalidSquare);
                }
                let cs: u8 = to % 8 + 8 * (from / 8);
                let (captured, pawn) = match (self.board[cs as usize], self.board[from as usize]) {
                    (Some(c), Some(p)) => {
                        if from == cs {
                            return Err(ReplayError::MissingPiece);
                        }
                        (c, p)
                    },
                    _ => {
                        return Err(ReplayError::MissingPiece);
                    },
                };
                if captured.role != Role::Pawn || pawn.role != Role::Pawn || captured.color == pawn.color {
                    return Err(ReplayError::PieceMismatch);
                }
                let ghost b1 = b.update(cs as int, None).update(from as int, None);
                let taken = to != cs && to != from && self.board[to as usize].is_some();
                assert(taken == (b1[to as int] is Some));
                if taken {
                    return Err(ReplayError::SquareOccupied);
                }
                self.board.set(cs as usize, None);
                self.board.set(from as usize, None);
                self.board.set(to as usize, Some(pawn));
                events.push(PieceEvent::Captured { piece: captured, square: cs, moves: mv, by: Some(pawn) });
            },
        }
        self.halfmoves = h;
        self.moves = mv;
        proof {
            match play_spec(b, m, mv) {
                Ok((b2, evs)) => {
                    assert(self.board@ =~= b2);
                    assert(events@ =~= evs);
                },
                Err(_) => {},
            }
        }
        Ok(events)
    }

    /// The end-of-game report, square by square from a1 to h8: a king of the
    /// side that lost, when there is a winner, is taken; every other piece
    /// survives.
    pub fn finish(&self, winner: Option<Color>) -> (r: Vec<PieceEvent>)
        requires
            self.wf(),
        ensures
            r@ == final_events(self.board(), 64, self.moves_spec(), winner),
    {
        let mut out: Vec<PieceEvent> = Vec::new();
        let mut sq: u8 = 0;
        while sq < 64
            invariant
                sq <= 64,
                self.wf(),
                out@ == final_events(self.board(), sq as int, self.moves_spec(), winner),
            decreases 64 - sq,
        {
            match self.board[sq as usize] {
                None => {},
                Some(p) => {
                    let lost = match winner {
                        Some(w) => p.role == Role::King && w != p.color,
                        None => false,
                    };
                    if lost {
                        out.push(PieceEvent::Captured { piece: p, square: sq, moves: self.moves, by: None });
                    } else {
                        out.push(PieceEvent::Survived { piece: p, square: sq, moves: self.moves });
                    }
                },
            }
            sq += 1;
        }
        out
    }
}

} // verus!
