use vstd::prelude::*;

verus! {

/// The two players.
#[derive(Debug, Clone, Copy, PartialEq, Eq, Structural, Hash)]
pub enum Side {
    Black,
    White,
}

/// The six kinds of chess pieces.
#[derive(Debug, Clone, Copy, PartialEq, Eq, Structural, Hash)]
pub enum PieceType {
    Pawn,
    Rook,
    Knight,
    Bishop,
    Queen,
    King,
}

/// A piece on the board. `did_move` records whether it has left its
/// starting square, which decides the pawn's double step.
#[derive(Debug, Clone, Copy, PartialEq, Eq, Structural, Hash)]
pub struct Piece {
    pub kind: PieceType,
    pub side: Side,
    pub did_move: bool,
}

/// The other side.
pub open spec fn opposite(side: Side) -> Side {
    match side {
        Side::White => Side::Black,
        Side::Black => Side::White,
    }
}

impl Side {
    /// The side that plays against this one.
    pub fn opponent(self) -> (r: Side)
        ensures
            r == opposite(self),
            r != self,
    {
        match self {
            Side::White => Side::Black,
            Side::Black => Side::White,
        }
    }
}

impl Piece {
    /// A piece that has not moved yet.
    pub fn new(kind: PieceType, side: Side) -> (r: Piece)
        ensures
            r == (Piece { kind, side, did_move: false }),
    {
        Piece { kind, side, did_move: false }
    }

    /// The name of the piece's kind, as shown to players.
    pub fn to_string(&self) -> (r: String)
        ensures
            r@ == kind_name(self.kind),
    {
        match self.kind {
            PieceType::Pawn => "Pawn".to_owned(),
            PieceType::Rook => "Rook".to_owned(),
            PieceType::Knight => "Knight".to_owned(),
            PieceType::Bishop => "Bishop".to_owned(),
            PieceType::Queen => "Queen".to_owned(),
            PieceType::King => "King".to_owned(),
        }
    }
}

/// The displayed name of each kind of piece.
pub open spec fn kind_name(kind: PieceType) -> Seq<char> {
    match kind {
        PieceType::Pawn => "Pawn"@,
        PieceType::Rook => "Rook"@,
        PieceType::Knight => "Knight"@,
        PieceType::Bishop => "Bishop"@,
        PieceType::Queen => "Queen"@,
        PieceType::King => "King"@,
    }
}

} // verus!
