use vstd::prelude::*;

use crate::board::{
    in_board, is_coord_in_board, opening_board, owned_by, piece_at, tile_index, Board, Tile, TILES,
};
use crate::legality::{apply_move, checkmated, legal_moves, lemma_legal_moves_safe};
use crate::moves::{contains_square, in_check, lemma_pseudo_moves_in_board, pseudo_moves, sq};
use crate::piece::{opposite, Piece, PieceType, Side};

verus! {

/// One committed move, as kept in the game's history.
#[derive(Debug, Clone, Copy, PartialEq, Eq)]
pub struct GameMoveRecord {
    pub kind: PieceType,
    pub side: Side,
    pub from: (usize, usize),
    pub to: (usize, usize),
    pub taken_piece: Option<PieceType>,
}

/// A game in progress: the board, the history of committed moves, the square
/// whose piece the player holds, the side whose king is in check after the
/// last move, and the winner once a side is checkmated.
pub struct Game {
    pub tiles: Board,
    pub hovered_piece_coords: Option<(usize, usize)>,
    pub move_records: Vec<GameMoveRecord>,
    pub is_check: Option<Side>,
    pub victor: Option<Side>,
}

/// The side to move after the moves of `records`: White first, then the
/// opposite of whoever moved last.
pub open spec fn side_on_move(records: Seq<GameMoveRecord>) -> Side {
    if records.len() == 0 {
        Side::White
    } else {
        opposite(records.last().side)
    }
}

/// The side that makes the i-th move of a game (counting from 0).
pub open spec fn turn_side(i: int) -> Side {
    if i % 2 == 0 {
        Side::White
    } else {
        Side::Black
    }
}

/// The history entry for moving the piece on `from` to `to` on board `b`.
pub open spec fn move_record(b: Seq<Option<Piece>>, from: (usize, usize), to: (usize, usize)) -> GameMoveRecord {
    let p = piece_at(b, from.0 as int, from.1 as int)->Some_0;
    GameMoveRecord {
        kind: p.kind,
        side: p.side,
        from,
        to,
        taken_piece: match piece_at(b, to.0 as int, to.1 as int) {
            Some(q) => Some(q.kind),
            None => None,
        },
    }
}

/// Whether dropping the held piece on `target` commits a move: the game is
/// not over, a piece is held, and `target` is one of its legal moves.
pub open spec fn drop_commits(g: Game, target: (i32, i32)) -> bool {
    &&& g.victor is None
    &&& g.hovered_piece_coords matches Some(f)
    &&& in_board(target.0 as int, target.1 as int)
    &&& legal_moves(g.tiles@, f.0 as int, f.1 as int).contains(sq(target.0 as int, target.1 as int))
}


impl Game {
    /// The board holds 64 tiles, the history alternates White, Black,
    /// White, ..., and a held square holds a piece of the side to move.
    pub open spec fn wf(&self) -> bool {
        &&& self.tiles.wf()
        &&& forall|i: int|
            0 <= i < self.move_records@.len() ==> (#[trigger] self.move_records@[i]).side
                == turn_side(i)
        &&& self.hovered_piece_coords matches Some(c) ==> {
            &&& c.0 < 8
            &&& c.1 < 8
            &&& owned_by(self.tiles@, c.0 as int, c.1 as int, side_on_move(self.move_records@))
        }
    }

    /// The side to move.
    pub open spec fn side_to_move(&self) -> Side {
        side_on_move(self.move_records@)
    }

    /// A new game in the standard opening position, White to move.
    pub fn new() -> (r: Game)
        ensures
            r.wf(),
            r.tiles@ == opening_board(),
            r.move_records@.len() == 0,
            r.hovered_piece_coords is None,
            r.is_check is None,
            r.victor is None,
    {
        Game {
            tiles: Board::standard(),
            hovered_piece_coords: None,
            move_records: Vec::new(),
            is_check: None,
            victor: None,
        }
    }

    /// A game that starts from `board` with White to move; `is_check`
    /// records whether White starts in check.
    pub fn with_board(board: Board) -> (r: Game)
        requires
            board.wf(),
        ensures
            r.wf(),
            r.tiles@ == board@,
            r.move_records@.len() == 0,
            r.hovered_piece_coords is None,
            r.is_check == if in_check(board@, Side::White) {
                Some(Side::White)
            } else {
                None
            },
            r.victor is None,
    {
        let is_check = if board.is_check(Side::White) {
            Some(Side::White)
        } else {
            None
        };
        Game { tiles: board, hovered_piece_coords: None, move_records: Vec::new(), is_check, victor: None }
    }

    /// Starts the game over: the standard opening position, an empty
    /// history, nothing held, no check and no winner.
    pub fn reset(&mut self)
        ensures
            final(self).wf(),
            final(self).tiles@ == opening_board(),
            final(self).move_records@.len() == 0,
            final(self).hovered_piece_coords is None,
            final(self).is_check is None,
            final(self).victor is None,
    {
        *self = Game::new();
    }

    /// The side to move: White when no move was made yet, else the opposite
    /// of the side that made the last move.
    pub fn get_side_on_move(&self) -> (r: Side)
        ensures
            r == self.side_to_move(),
    {
        let n = self.move_records.len();
        if n == 0 {
            Side::White
        } else {
            self.move_records[n - 1].side.opponent()
        }
    }

    /// Whether the king of `check_for` is in check on `board`.
    pub fn is_check(&self, check_for: Side, board: &Board) -> (r: bool)
        requires
            board.wf(),
        ensures
            r == in_check(board@, check_for),
    {
        board.is_check(check_for)
    }

    /// The pseudo-legal moves of the piece on `coords`.
    pub fn get_piece_available_moves(&self, coords: (i32, i32)) -> (r: Vec<(usize, usize)>)
        requires
            self.wf(),
            in_board(coords.0 as int, coords.1 as int),
        ensures
            r@ == pseudo_moves(self.tiles@, coords.0 as int, coords.1 as int),
            forall|i: int| 0 <= i < r@.len() ==> (#[trigger] r@[i]).0 < 8 && r@[i].1 < 8,
    {
        let r = self.tiles.piece_moves(coords.0 as usize, coords.1 as usize);
        proof {
            assert forall|i: int| 0 <= i < r@.len() implies (#[trigger] r@[i]).0 < 8 && r@[i].1
                < 8 by {
                lemma_pseudo_moves_in_board(self.tiles@, coords.0 as int, coords.1 as int, i);
            }
        }
        r
    }

    /// The legal moves of the piece on `coords`: those that do not leave its
    /// own king in check.
    pub fn get_piece_available_moves_with_check(&self, coords: (i32, i32)) -> (r: Vec<(usize, usize)>)
        requires
            self.wf(),
            in_board(coords.0 as int, coords.1 as int),
        ensures
            r@ == legal_moves(self.tiles@, coords.0 as int, coords.1 as int),
    {
        self.tiles.legal_moves(coords.0 as usize, coords.1 as usize)
    }

    /// Takes hold of the piece on `coords` when it belongs to the side to
    /// move; otherwise lets go of whatever was held. Once the game has a
    /// winner nothing changes.
    pub fn start_drag_event(&mut self, coords: (i32, i32))
        requires
            old(self).wf(),
        ensures
            final(self).wf(),
            old(self).victor is Some ==> *final(self) == *old(self),
            old(self).victor is None ==> *final(self) == (Game {
                hovered_piece_coords: if in_board(coords.0 as int, coords.1 as int) && owned_by(
                    old(self).tiles@,
                    coords.0 as int,
                    coords.1 as int,
                    old(self).side_to_move(),
                ) {
                    Some(sq(coords.0 as int, coords.1 as int))
                } else {
                    None
                },
                ..*old(self)
            }),
    {
        if self.victor.is_some() {
            return;
        }
        if !is_coord_in_board(coords) {
            self.hovered_piece_coords = None;
            return;
        }
        let x = coords.0 as usize;
        let y = coords.1 as usize;
        match self.tiles.get(x, y) {
            Some(p) => {
                if p.side == self.get_side_on_move() {
                    self.hovered_piece_coords = Some((x, y));
                } else {
                    self.hovered_piece_coords = None;
                }
            },
            None => {
                self.hovered_piece_coords = None;
            },
        }
    }

    /// Drops the held piece on `coords`. When that is one of its legal
    /// moves the move is committed: the board changes, the history grows by
    /// one record, `is_check` names the side to move if its king is now in
    /// check, and when that side has no legal move left the mover becomes
    /// the victor. Otherwise only the hold is released. Nothing changes when
    /// no piece is held or the game has a winner.
    pub fn end_drag_event(&mut self, coords: (i32, i32))
        requires
            old(self).wf(),
        ensures
            final(self).wf(),
            old(self).victor is Some || old(self).hovered_piece_coords is None ==> *final(self)
                == *old(self),
            old(self).victor is None && old(self).hovered_piece_coords is Some && !drop_commits(
                *old(self),
                coords,
            ) ==> *final(self) == (Game { hovered_piece_coords: None, ..*old(self) }),
            drop_commits(*old(self), coords) ==> {
                let from = old(self).hovered_piece_coords->Some_0;
                let to = sq(coords.0 as int, coords.1 as int);
                let mover = old(self).side_to_move();
                let next = apply_move(old(self).tiles@, from, to);
                &&& final(self).tiles@ == next
                &&& final(self).move_records@ == old(self).move_records@.push(
                    move_record(old(self).tiles@, from, to),
                )
                &&& final(self).is_check == if in_check(next, opposite(mover)) {
                    Some(opposite(mover))
                } else {
                    None
                }
                &&& final(self).victor == if checkmated(next, opposite(mover)) {
                    Some(mover)
                } else {
                    None
                }
                &&& final(self).hovered_piece_coords is None
            },
    {
        if self.victor.is_some() {
            return;
        }
        let from = match self.hovered_piece_coords {
            Some(c) => c,
            None => {
                return;
            },
        };
        if !is_coord_in_board(coords) {
            self.hovered_piece_coords = None;
            return;
        }
        let to = (coords.0 as usize, coords.1 as usize);
        let piece = match self.tiles.get(from.0, from.1) {
            Some(p) => p,
            None => {
                self.hovered_piece_coords = None;
                return;
            },
        };
        let legal = self.tiles.legal_moves(from.0, from.1);
        if !contains_square(&legal, to) {
            self.hovered_piece_coords = None;
            return;
        }
        let taken_piece = match self.tiles.get(to.0, to.1) {
            Some(q) => Some(q.kind),
            None => None,
        };
        let record = GameMoveRecord { kind: piece.kind, side: piece.side, from, to, taken_piece };
        let saved = self.tiles.snapshot();
        self.tiles.apply_move(from, to);
        if self.tiles.is_check(piece.side) {
            proof {
                lemma_legal_moves_safe(saved@, from.0 as int, from.1 as int, to);
            }
            self.tiles.restore(saved);
            self.hovered_piece_coords = None;
            return;
        }
        self.move_records.push(record);
        let opponent = piece.side.opponent();
        if self.tiles.is_check(opponent) {
            self.is_check = Some(opponent);
            if !self.tiles.has_legal_move(opponent) {
                self.victor = Some(piece.side);
            }
        } else {
            self.is_check = None;
        }
        self.hovered_piece_coords = None;
        proof {
            let n = old(self).move_records@.len();
            assert(forall|i: int|
                0 <= i < n ==> self.move_records@[i] == old(self).move_records@[i]);
            assert(n > 0 ==> old(self).move_records@[n - 1].side == turn_side(n - 1));
            assert(self.move_records@[n as int].side == turn_side(n as int));
        }
    }

    /// Marks the tile on `coords` as highlighted, when it is on the board.
    pub fn highlight_tile_by_coords(&mut self, coords: (i32, i32))
        requires
            old(self).wf(),
        ensures
            final(self).wf(),
            final(self).tiles@ == old(self).tiles@,
            in_board(coords.0 as int, coords.1 as int) ==> final(self).tiles.tiles@ == old(
                self,
            ).tiles.tiles@.update(
                tile_index(coords.0 as int, coords.1 as int),
                Tile {
                    highlighted: true,
                    ..old(self).tiles.tiles@[tile_index(coords.0 as int, coords.1 as int)]
                },
            ),
            !in_board(coords.0 as int, coords.1 as int) ==> final(self).tiles.tiles@ == old(
                self,
            ).tiles.tiles@,
            final(self).move_records@ == old(self).move_records@,
            final(self).hovered_piece_coords == old(self).hovered_piece_coords,
            final(self).is_check == old(self).is_check,
            final(self).victor == old(self).victor,
    {
        if is_coord_in_board(coords) {
            self.tiles.set_highlight(coords.0 as usize, coords.1 as usize, true);
        }
    }

    /// Removes every highlight marker.
    pub fn clear_highlights(&mut self)
        requires
            old(self).wf(),
        ensures
            final(self).wf(),
            final(self).tiles@ == old(self).tiles@,
            forall|i: int| 0 <= i < 64 ==> !(#[trigger] final(self).tiles.tiles@[i]).highlighted,
            final(self).move_records@ == old(self).move_records@,
            final(self).hovered_piece_coords == old(self).hovered_piece_coords,
            final(self).is_check == old(self).is_check,
            final(self).victor == old(self).victor,
    {
        self.tiles.clear_highlights();
    }

    /// The tile on `coords` with its square, when `coords` is on the board.
    pub fn get_tile_on_coords(&self, coords: (i32, i32)) -> (r: Option<(Tile, (usize, usize))>)
        requires
            self.wf(),
        ensures
            in_board(coords.0 as int, coords.1 as int) ==> r == Some((
                self.tiles.tiles@[coords.1 * 8 + coords.0],
                sq(coords.0 as int, coords.1 as int),
            )),
            !in_board(coords.0 as int, coords.1 as int) ==> r is None,
    {
        if is_coord_in_board(coords) {
            let x = coords.0 as usize;
            let y = coords.1 as usize;
            Some((self.tiles.tile(x, y), (x, y)))
        } else {
            None
        }
    }

    /// Every tile with its square, in row-major order.
    pub fn tiles_iter(&self) -> (r: Vec<(usize, usize, Tile)>)
        requires
            self.wf(),
        ensures
            r@.len() == 64,
            forall|i: int|
                0 <= i < 64 ==> #[trigger] r@[i] == ((i % 8) as usize, (i / 8) as usize,
                self.tiles.tiles@[i]),
    {
        let mut r: Vec<(usize, usize, Tile)> = Vec::new();
        let mut i: usize = 0;
        while i < TILES
            invariant
                self.wf(),
                i <= TILES,
                r@.len() == i,
                forall|j: int|
                    0 <= j < i ==> #[trigger] r@[j] == ((j % 8) as usize, (j / 8) as usize,
                    self.tiles.tiles@[j]),
            decreases TILES - i,
        {
            r.push((i % 8, i / 8, self.tiles.tiles[i]));
            i = i + 1;
        }
        r
    }
}

} // verus!
