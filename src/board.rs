use vstd::prelude::*;

use crate::piece::{Piece, PieceType, Side};

verus! {

/// Number of files and of ranks.
pub const SIZE: usize = 8;

/// Number of tiles on the board.
pub const TILES: usize = 64;

/// A square (file, rank) lies on the board.
pub open spec fn in_board(x: int, y: int) -> bool {
    0 <= x < 8 && 0 <= y < 8
}

/// Position of square (x, y) in the row-major tile sequence.
pub open spec fn tile_index(x: int, y: int) -> int {
    y * 8 + x
}

/// The square at position `i` of the row-major tile sequence.
pub open spec fn square_of(i: int) -> (usize, usize) {
    ((i % 8) as usize, (i / 8) as usize)
}

/// The piece on square (x, y) of a board model.
pub open spec fn piece_at(b: Seq<Option<Piece>>, x: int, y: int) -> Option<Piece> {
    b[tile_index(x, y)]
}

/// Whether square (x, y) holds a piece of `side`.
pub open spec fn owned_by(b: Seq<Option<Piece>>, x: int, y: int, side: Side) -> bool {
    piece_at(b, x, y) matches Some(p) && p.side == side
}

/// One cell of the board: the piece on it, and a marker that the
/// presentation sets on the tile under the cursor. The marker has no
/// meaning to the rules.
#[derive(Debug, Clone, Copy, PartialEq, Eq, Structural)]
pub struct Tile {
    pub piece: Option<Piece>,
    pub highlighted: bool,
}

impl Tile {
    /// An empty tile without highlight.
    pub fn new() -> (r: Tile)
        ensures
            r == (Tile { piece: None, highlighted: false }),
    {
        Tile { piece: None, highlighted: false }
    }

    /// Removes the highlight marker.
    pub fn clear_bg(&mut self)
        ensures
            *final(self) == (Tile { highlighted: false, ..*old(self) }),
    {
        self.highlighted = false;
    }
}

/// The 8x8 board, stored row by row: the tile of (file x, rank y) is at
/// position `y * 8 + x`. Rank 0 is Black's back rank.
pub struct Board {
    pub tiles: Vec<Tile>,
}

impl View for Board {
    type V = Seq<Option<Piece>>;

    /// The pieces of the board, row by row.
    open spec fn view(&self) -> Seq<Option<Piece>> {
        self.tiles@.map_values(|t: Tile| t.piece)
    }
}

/// The sequence of `n` empty tiles.
pub open spec fn empty_tiles(n: nat) -> Seq<Tile> {
    Seq::new(n, |i: int| Tile { piece: None, highlighted: false })
}

/// The piece that starts on file `x` of a back rank.
pub open spec fn back_rank_kind(x: int) -> PieceType {
    if x == 0 || x == 7 {
        PieceType::Rook
    } else if x == 1 || x == 6 {
        PieceType::Knight
    } else if x == 2 || x == 5 {
        PieceType::Bishop
    } else if x == 3 {
        PieceType::Queen
    } else {
        PieceType::King
    }
}

/// What square (x, y) holds in the standard opening position.
pub open spec fn opening_piece(x: int, y: int) -> Option<Piece> {
    if y == 0 {
        Some(Piece { kind: back_rank_kind(x), side: Side::Black, did_move: false })
    } else if y == 1 {
        Some(Piece { kind: PieceType::Pawn, side: Side::Black, did_move: false })
    } else if y == 6 {
        Some(Piece { kind: PieceType::Pawn, side: Side::White, did_move: false })
    } else if y == 7 {
        Some(Piece { kind: back_rank_kind(x), side: Side::White, did_move: false })
    } else {
        None
    }
}

/// The board model of the standard opening position.
pub open spec fn opening_board() -> Seq<Option<Piece>> {
    Seq::new(64, |i: int| opening_piece(i % 8, i / 8))
}

/// Whether a square given in signed coordinates lies on the board.
pub fn is_coord_in_board(coords: (i32, i32)) -> (r: bool)
    ensures
        r == in_board(coords.0 as int, coords.1 as int),
{
    let (x, y) = coords;
    x >= 0 && y >= 0 && x < 8 && y < 8
}

/// The back-rank kind on file `x`.
fn back_rank_piece(x: usize) -> (r: PieceType)
    requires
        x < 8,
    ensures
        r == back_rank_kind(x as int),
{
    if x == 0 || x == 7 {
        PieceType::Rook
    } else if x == 1 || x == 6 {
        PieceType::Knight
    } else if x == 2 || x == 5 {
        PieceType::Bishop
    } else if x == 3 {
        PieceType::Queen
    } else {
        PieceType::King
    }
}

impl Board {
    /// The board holds exactly 64 tiles.
    pub open spec fn wf(&self) -> bool {
        self.tiles@.len() == 64
    }

    /// A board with no pieces and no highlight.
    pub fn new() -> (r: Board)
        ensures
            r.wf(),
            r.tiles@ == empty_tiles(64),
            forall|i: int| 0 <= i < 64 ==> (#[trigger] r@[i]) is None,
    {
        let mut tiles: Vec<Tile> = Vec::new();
        let mut i: usize = 0;
        while i < TILES
            invariant
                i <= TILES,
                tiles@ == empty_tiles(i as nat),
            decreases TILES - i,
        {
            tiles.push(Tile::new());
            i = i + 1;
            assert(tiles@ =~= empty_tiles(i as nat));
        }
        Board { tiles }
    }

    /// The board in the standard opening position, without highlight.
    pub fn standard() -> (r: Board)
        ensures
            r.wf(),
            r@ == opening_board(),
            forall|i: int| 0 <= i < 64 ==> !(#[trigger] r.tiles@[i]).highlighted,
    {
        let mut board = Board::new();
        let mut x: usize = 0;
        while x < SIZE
            invariant
                board.wf(),
                x <= SIZE,
                forall|i: int| 0 <= i < 64 ==> !(#[trigger] board.tiles@[i]).highlighted,
                forall|i: int|
                    0 <= i < 64 ==> #[trigger] board@[i] == if i % 8 < x {
                        opening_piece(i % 8, i / 8)
                    } else {
                        None::<Piece>
                    },
            decreases SIZE - x,
        {
            let back = back_rank_piece(x);
            board.set(x, 0, Some(Piece::new(back, Side::Black)));
            board.set(x, 1, Some(Piece::new(PieceType::Pawn, Side::Black)));
            board.set(x, 6, Some(Piece::new(PieceType::Pawn, Side::White)));
            board.set(x, 7, Some(Piece::new(back, Side::White)));
            x = x + 1;
        }
        assert(board@ =~= opening_board());
        board
    }

    /// A copy of the whole board.
    pub fn snapshot(&self) -> (r: Board)
        requires
            self.wf(),
        ensures
            r.tiles@ == self.tiles@,
            r@ == self@,
            r.wf(),
    {
        let mut tiles: Vec<Tile> = Vec::new();
        let mut i: usize = 0;
        while i < TILES
            invariant
                self.wf(),
                i <= TILES,
                tiles@ == self.tiles@.take(i as int),
            decreases TILES - i,
        {
            tiles.push(self.tiles[i]);
            i = i + 1;
            assert(tiles@ =~= self.tiles@.take(i as int));
        }
        assert(tiles@ =~= self.tiles@);
        Board { tiles }
    }

    /// Puts the board back to an earlier snapshot.
    pub fn restore(&mut self, saved: Board)
        requires
            saved.wf(),
        ensures
            final(self).tiles@ == saved.tiles@,
            final(self)@ == saved@,
            final(self).wf(),
    {
        *self = saved;
    }

    /// The piece on square (x, y).
    pub fn get(&self, x: usize, y: usize) -> (r: Option<Piece>)
        requires
            self.wf(),
            x < 8,
            y < 8,
        ensures
            r == piece_at(self@, x as int, y as int),
    {
        self.tiles[y * SIZE + x].piece
    }

    /// The tile of square (x, y).
    pub fn tile(&self, x: usize, y: usize) -> (r: Tile)
        requires
            self.wf(),
            x < 8,
            y < 8,
        ensures
            r == self.tiles@[tile_index(x as int, y as int)],
    {
        self.tiles[y * SIZE + x]
    }

    /// Places `piece` (or nothing) on square (x, y); every other tile and
    /// every highlight marker stays as it was.
    pub fn set(&mut self, x: usize, y: usize, piece: Option<Piece>)
        requires
            old(self).wf(),
            x < 8,
            y < 8,
        ensures
            final(self).wf(),
            final(self)@ == old(self)@.update(tile_index(x as int, y as int), piece),
            forall|i: int|
                0 <= i < 64 ==> (#[trigger] final(self).tiles@[i]).highlighted
                    == old(self).tiles@[i].highlighted,
    {
        let i = y * SIZE + x;
        let mut tile = self.tiles[i];
        tile.piece = piece;
        self.tiles.set(i, tile);
        assert(self@ =~= old(self)@.update(tile_index(x as int, y as int), piece));
    }

    /// Sets or clears the highlight marker of square (x, y).
    pub fn set_highlight(&mut self, x: usize, y: usize, on: bool)
        requires
            old(self).wf(),
            x < 8,
            y < 8,
        ensures
            final(self).wf(),
            final(self)@ == old(self)@,
            final(self).tiles@ == old(self).tiles@.update(
                tile_index(x as int, y as int),
                Tile { highlighted: on, ..old(self).tiles@[tile_index(x as int, y as int)] },
            ),
    {
        let i = y * SIZE + x;
        let mut tile = self.tiles[i];
        tile.highlighted = on;
        self.tiles.set(i, tile);
        assert(self@ =~= old(self)@);
    }

    /// Removes every highlight marker; the pieces stay.
    pub fn clear_highlights(&mut self)
        requires
            old(self).wf(),
        ensures
            final(self).wf(),
            final(self)@ == old(self)@,
            forall|i: int| 0 <= i < 64 ==> !(#[trigger] final(self).tiles@[i]).highlighted,
    {
        let mut i: usize = 0;
        while i < TILES
            invariant
                self.wf(),
                i <= TILES,
                self@ == old(self)@,
                forall|j: int| 0 <= j < i ==> !(#[trigger] self.tiles@[j]).highlighted,
            decreases TILES - i,
        {
            let mut tile = self.tiles[i];
            tile.clear_bg();
            self.tiles.set(i, tile);
            assert(self@ =~= old(self)@);
            i = i + 1;
        }
    }

    /// Which side, if any, has a piece on square (x, y).
    pub fn is_piece_on_coords(&self, x: usize, y: usize) -> (r: (bool, Option<Side>))
        requires
            self.wf(),
            x < 8,
            y < 8,
        ensures
            r.0 == piece_at(self@, x as int, y as int) is Some,
            r.1 == match piece_at(self@, x as int, y as int) {
                Some(p) => Some(p.side),
                None => None::<Side>,
            },
    {
        match self.tiles[y * SIZE + x].piece {
            Some(p) => (true, Some(p.side)),
            None => (false, None),
        }
    }
}

} // verus!
