use vstd::prelude::*;

use crate::board::{piece_at, tile_index, Board, TILES};
use crate::moves::{in_check, lemma_pseudo_moves_in_board, pseudo_moves, sq};
use crate::piece::{Piece, Side};

verus! {

/// The board after the piece on `from` moves to `to`: it lands there marked
/// as moved, replacing whatever stood on `to`, and `from` is left empty.
pub open spec fn apply_move(b: Seq<Option<Piece>>, from: (usize, usize), to: (usize, usize)) -> Seq<
    Option<Piece>,
> {
    let moved = match piece_at(b, from.0 as int, from.1 as int) {
        Some(p) => Some(Piece { did_move: true, ..p }),
        None => None,
    };
    b.update(tile_index(to.0 as int, to.1 as int), moved).update(
        tile_index(from.0 as int, from.1 as int),
        None,
    )
}

/// Whether moving the piece on `from` to `to` leaves its own king out of
/// check.
pub open spec fn keeps_king_safe(b: Seq<Option<Piece>>, from: (usize, usize), to: (usize, usize)) -> bool {
    match piece_at(b, from.0 as int, from.1 as int) {
        Some(p) => !in_check(apply_move(b, from, to), p.side),
        None => false,
    }
}

/// The entries of `ms` that keep the king of the piece on (x, y) safe, in
/// order.
pub open spec fn safe_moves(b: Seq<Option<Piece>>, x: int, y: int, ms: Seq<(usize, usize)>) -> Seq<
    (usize, usize),
>
    decreases ms.len(),
{
    if ms.len() == 0 {
        Seq::empty()
    } else {
        let prev = safe_moves(b, x, y, ms.drop_last());
        if keeps_king_safe(b, sq(x, y), ms.last()) {
            prev.push(ms.last())
        } else {
            prev
        }
    }
}

/// The legal moves of the piece on (x, y): its pseudo-legal moves that do
/// not leave its own king in check, in generation order.
pub open spec fn legal_moves(b: Seq<Option<Piece>>, x: int, y: int) -> Seq<(usize, usize)> {
    safe_moves(b, x, y, pseudo_moves(b, x, y))
}

/// Whether the piece at position `i` belongs to `side` and has a legal move.
pub open spec fn can_move_from(b: Seq<Option<Piece>>, side: Side, i: int) -> bool {
    &&& b[i] matches Some(p) && p.side == side
    &&& legal_moves(b, i % 8, i / 8).len() > 0
}

/// Whether `side` has any legal move.
pub open spec fn has_legal_move(b: Seq<Option<Piece>>, side: Side) -> bool {
    exists|i: int| 0 <= i < 64 && #[trigger] can_move_from(b, side, i)
}

/// Whether `side` is checkmated: in check, with no legal move.
pub open spec fn checkmated(b: Seq<Option<Piece>>, side: Side) -> bool {
    in_check(b, side) && !has_legal_move(b, side)
}

/// Whatever `safe_moves` keeps comes from `ms` and keeps the king safe.
proof fn lemma_safe_moves_contains(
    b: Seq<Option<Piece>>,
    x: int,
    y: int,
    ms: Seq<(usize, usize)>,
    m: (usize, usize),
)
    requires
        safe_moves(b, x, y, ms).contains(m),
    ensures
        ms.contains(m),
        keeps_king_safe(b, sq(x, y), m),
    decreases ms.len(),
{
    let prev = safe_moves(b, x, y, ms.drop_last());
    if keeps_king_safe(b, sq(x, y), ms.last()) && m == ms.last() {
        assert(ms[ms.len() - 1] == m);
    } else {
        if keeps_king_safe(b, sq(x, y), ms.last()) {
            let i = choose|i: int| 0 <= i < prev.push(ms.last()).len() && prev.push(ms.last())[i] == m;
            assert(prev[i] == m);
        }
        assert(prev.contains(m));
        lemma_safe_moves_contains(b, x, y, ms.drop_last(), m);
        let j = choose|j: int| 0 <= j < ms.drop_last().len() && ms.drop_last()[j] == m;
        assert(ms[j] == m);
    }
}

/// Every legal move is one of the piece's pseudo-legal moves, and making it
/// leaves the mover's own king out of check.
pub proof fn lemma_legal_moves_safe(b: Seq<Option<Piece>>, x: int, y: int, m: (usize, usize))
    requires
        legal_moves(b, x, y).contains(m),
    ensures
        pseudo_moves(b, x, y).contains(m),
        keeps_king_safe(b, sq(x, y), m),
{
    lemma_safe_moves_contains(b, x, y, pseudo_moves(b, x, y), m);
}

impl Board {
    /// Moves the piece on `from` to `to`, marking it as moved and removing
    /// whatever stood on `to`.
    pub fn apply_move(&mut self, from: (usize, usize), to: (usize, usize))
        requires
            old(self).wf(),
            from.0 < 8,
            from.1 < 8,
            to.0 < 8,
            to.1 < 8,
        ensures
            final(self).wf(),
            final(self)@ == apply_move(old(self)@, from, to),
    {
        let moved = match self.get(from.0, from.1) {
            Some(p) => Some(Piece { did_move: true, ..p }),
            None => None,
        };
        self.set(to.0, to.1, moved);
        self.set(from.0, from.1, None);
    }

    /// The legal moves of the piece on (x, y), in generation order.
    pub fn legal_moves(&self, x: usize, y: usize) -> (r: Vec<(usize, usize)>)
        requires
            self.wf(),
            x < 8,
            y < 8,
        ensures
            r@ == legal_moves(self@, x as int, y as int),
    {
        let candidates = self.piece_moves(x, y);
        let ghost ms = candidates@;
        let mut r: Vec<(usize, usize)> = Vec::new();
        let mut i: usize = 0;
        while i < candidates.len()
            invariant
                self.wf(),
                x < 8,
                y < 8,
                ms == candidates@,
                ms == pseudo_moves(self@, x as int, y as int),
                i <= ms.len(),
                r@ == safe_moves(self@, x as int, y as int, ms.take(i as int)),
            decreases ms.len() - i,
        {
            let to = candidates[i];
            proof {
                lemma_pseudo_moves_in_board(self@, x as int, y as int, i as int);
            }
            let keep = match self.get(x, y) {
                Some(p) => {
                    let mut trial = self.snapshot();
                    trial.apply_move((x, y), to);
                    !trial.is_check(p.side)
                },
                None => false,
            };
            assert(ms.take(i as int + 1).drop_last() =~= ms.take(i as int));
            if keep {
                r.push(to);
            }
            i = i + 1;
        }
        assert(ms.take(ms.len() as int) =~= ms);
        r
    }

    /// Whether `side` has a piece with a legal move.
    pub fn has_legal_move(&self, side: Side) -> (r: bool)
        requires
            self.wf(),
        ensures
            r == has_legal_move(self@, side),
    {
        let mut i: usize = 0;
        while i < TILES
            invariant
                self.wf(),
                i <= TILES,
                forall|j: int| 0 <= j < i ==> !#[trigger] can_move_from(self@, side, j),
            decreases TILES - i,
        {
            match self.tiles[i].piece {
                Some(p) => {
                    if p.side == side {
                        let moves = self.legal_moves(i % 8, i / 8);
                        if moves.len() > 0 {
                            assert(can_move_from(self@, side, i as int));
                            return true;
                        }
                    }
                },
                None => {},
            }
            i = i + 1;
        }
        false
    }
}

} // verus!
