use vstd::prelude::*;

use crate::board::{
    in_board, is_coord_in_board, owned_by, piece_at, square_of, tile_index, Board, TILES,
};
use crate::piece::{opposite, Piece, PieceType, Side};

verus! {

/// The square (x, y) as the engine hands it out.
pub open spec fn sq(x: int, y: int) -> (usize, usize) {
    (x as usize, y as usize)
}

/// Chebyshev distance: the number of king steps between two squares.
pub open spec fn chebyshev(x1: int, y1: int, x2: int, y2: int) -> int {
    let dx = if x1 >= x2 { x1 - x2 } else { x2 - x1 };
    let dy = if y1 >= y2 { y1 - y2 } else { y2 - y1 };
    if dx >= dy { dx } else { dy }
}

/// The squares that a sliding piece of `side` reaches along one direction,
/// starting at (x, y) and taking at most `fuel` steps of (dx, dy): empty
/// squares are passed over, the first occupied square ends the walk and is
/// reached only when it holds an opposing piece.
pub open spec fn ray(
    b: Seq<Option<Piece>>,
    side: Side,
    x: int,
    y: int,
    dx: int,
    dy: int,
    fuel: nat,
) -> Seq<(usize, usize)>
    decreases fuel,
{
    if fuel == 0 || !in_board(x, y) {
        Seq::empty()
    } else {
        match piece_at(b, x, y) {
            None => seq![sq(x, y)] + ray(b, side, x + dx, y + dy, dx, dy, (fuel - 1) as nat),
            Some(p) => if p.side != side {
                seq![sq(x, y)]
            } else {
                Seq::empty()
            },
        }
    }
}

/// The most squares a walk can cross: a whole file, rank or long diagonal
/// of the 8x8 board.
pub open spec fn max_ray_steps() -> nat {
    8
}

/// The rays of a sliding piece on (x, y), one per direction, in order.
pub open spec fn rays(b: Seq<Option<Piece>>, side: Side, x: int, y: int, dirs: Seq<(int, int)>) -> Seq<
    (usize, usize),
>
    decreases dirs.len(),
{
    if dirs.len() == 0 {
        Seq::empty()
    } else {
        let d = dirs.last();
        rays(b, side, x, y, dirs.drop_last()) + ray(
            b,
            side,
            x + d.0,
            y + d.1,
            d.0,
            d.1,
            max_ray_steps(),
        )
    }
}

/// Diagonal directions, in generation order.
pub open spec fn bishop_dirs() -> Seq<(int, int)> {
    seq![(1, 1), (1, -1), (-1, 1), (-1, -1)]
}

/// Orthogonal directions, in generation order.
pub open spec fn rook_dirs() -> Seq<(int, int)> {
    seq![(1, 0), (-1, 0), (0, 1), (0, -1)]
}

/// The queen's directions: the diagonals, then the orthogonals.
pub open spec fn queen_dirs() -> Seq<(int, int)> {
    bishop_dirs() + rook_dirs()
}

/// The directions a sliding piece of `kind` walks.
pub open spec fn slide_dirs(kind: PieceType) -> Seq<(int, int)> {
    match kind {
        PieceType::Rook => rook_dirs(),
        PieceType::Bishop => bishop_dirs(),
        _ => queen_dirs(),
    }
}

/// The eight knight jumps, in generation order.
pub open spec fn knight_offsets() -> Seq<(int, int)> {
    seq![(-1, -2), (1, -2), (2, -1), (2, 1), (1, 2), (-1, 2), (-2, 1), (-2, -1)]
}

/// The eight king steps, in generation order.
pub open spec fn king_offsets() -> Seq<(int, int)> {
    seq![(1, 0), (1, 1), (0, 1), (-1, 1), (-1, 0), (-1, -1), (0, -1), (1, -1)]
}

/// Whether a piece of `side` may jump to (tx, ty): on the board, not onto
/// its own side, and, when `avoid` names a square, at least two king steps
/// away from it.
pub open spec fn jump_ok(
    b: Seq<Option<Piece>>,
    side: Side,
    tx: int,
    ty: int,
    avoid: Option<(usize, usize)>,
) -> bool {
    &&& in_board(tx, ty)
    &&& !owned_by(b, tx, ty, side)
    &&& match avoid {
        None => true,
        Some(k) => chebyshev(tx, ty, k.0 as int, k.1 as int) >= 2,
    }
}

/// The squares a jumping piece of `side` on (x, y) reaches through the
/// offsets `offs`, in order.
pub open spec fn jumps(
    b: Seq<Option<Piece>>,
    side: Side,
    x: int,
    y: int,
    offs: Seq<(int, int)>,
    avoid: Option<(usize, usize)>,
) -> Seq<(usize, usize)>
    decreases offs.len(),
{
    if offs.len() == 0 {
        Seq::empty()
    } else {
        let prev = jumps(b, side, x, y, offs.drop_last(), avoid);
        let o = offs.last();
        if jump_ok(b, side, x + o.0, y + o.1, avoid) {
            prev.push(sq(x + o.0, y + o.1))
        } else {
            prev
        }
    }
}

/// The first king of `side` at or after position `i` in row-major order.
pub open spec fn first_king(b: Seq<Option<Piece>>, side: Side, i: int) -> Option<(usize, usize)>
    decreases 64 - i,
{
    if i < 0 || i >= 64 {
        None
    } else if b[i] matches Some(p) && p.kind == PieceType::King && p.side == side {
        Some(square_of(i))
    } else {
        first_king(b, side, i + 1)
    }
}

/// The last king of `side` before position `n` in row-major order.
pub open spec fn last_king(b: Seq<Option<Piece>>, side: Side, n: int) -> Option<(usize, usize)>
    decreases n,
{
    if n <= 0 || n > 64 {
        None
    } else if b[n - 1] matches Some(p) && p.kind == PieceType::King && p.side == side {
        Some(square_of(n - 1))
    } else {
        last_king(b, side, n - 1)
    }
}

/// The forward direction of a pawn of `side`: White moves towards rank 0.
pub open spec fn pawn_dir(side: Side) -> int {
    if side == Side::White {
        -1
    } else {
        1
    }
}

/// The forward squares of pawn `p` on (x, y): one step onto an empty square,
/// and a second one when the pawn has not moved and both squares are empty.
pub open spec fn pawn_forward(b: Seq<Option<Piece>>, x: int, y: int, p: Piece) -> Seq<(usize, usize)> {
    let d = pawn_dir(p.side);
    if in_board(x, y + d) && piece_at(b, x, y + d) is None {
        if !p.did_move && in_board(x, y + 2 * d) && piece_at(b, x, y + 2 * d) is None {
            seq![sq(x, y + d), sq(x, y + 2 * d)]
        } else {
            seq![sq(x, y + d)]
        }
    } else {
        Seq::empty()
    }
}

/// The diagonal square (tx, ty) of a pawn of `side`, when a piece of the
/// other side stands there.
pub open spec fn pawn_capture(b: Seq<Option<Piece>>, tx: int, ty: int, side: Side) -> Seq<
    (usize, usize),
> {
    if in_board(tx, ty) && owned_by(b, tx, ty, opposite(side)) {
        seq![sq(tx, ty)]
    } else {
        Seq::empty()
    }
}

/// The squares a pawn `p` on (x, y) reaches: its forward squares, then the
/// two forward diagonals when an opposing piece stands there.
pub open spec fn pawn_moves(b: Seq<Option<Piece>>, x: int, y: int, p: Piece) -> Seq<(usize, usize)> {
    let d = pawn_dir(p.side);
    pawn_forward(b, x, y, p) + pawn_capture(b, x - 1, y + d, p.side) + pawn_capture(
        b,
        x + 1,
        y + d,
        p.side,
    )
}

/// The pseudo-legal moves of the piece on (x, y), in generation order:
/// where its movement pattern takes it, whether or not that exposes its own
/// king. An empty square has none. A king has none while no opposing king
/// is on the board.
#[verifier::opaque]
pub open spec fn pseudo_moves(b: Seq<Option<Piece>>, x: int, y: int) -> Seq<(usize, usize)> {
    match piece_at(b, x, y) {
        None => Seq::empty(),
        Some(p) => match p.kind {
            PieceType::Pawn => pawn_moves(b, x, y, p),
            PieceType::Knight => jumps(b, p.side, x, y, knight_offsets(), None),
            PieceType::King => match first_king(b, opposite(p.side), 0) {
                None => Seq::empty(),
                Some(k) => jumps(b, p.side, x, y, king_offsets(), Some(k)),
            },
            _ => rays(b, p.side, x, y, slide_dirs(p.kind)),
        },
    }
}

/// Whether the piece at position `i` opposes `side` and reaches `target`.
pub open spec fn attacks(b: Seq<Option<Piece>>, side: Side, i: int, target: (usize, usize)) -> bool {
    &&& b[i] matches Some(p) && p.side != side
    &&& pseudo_moves(b, i % 8, i / 8).contains(target)
}

/// Whether the king of `side` is in check: some opposing piece reaches the
/// square of that king (the last one in row-major order). Without a king
/// there is no check.
pub open spec fn in_check(b: Seq<Option<Piece>>, side: Side) -> bool {
    match last_king(b, side, 64) {
        None => false,
        Some(k) => attacked(b, side, k),
    }
}

/// Whether some piece opposing `side` reaches `target`.
pub open spec fn attacked(b: Seq<Option<Piece>>, side: Side, target: (usize, usize)) -> bool {
    exists|i: int| 0 <= i < 64 && #[trigger] attacks(b, side, i, target)
}

/// Every square of `s` lies on the board.
pub open spec fn all_in_board(s: Seq<(usize, usize)>) -> bool {
    forall|i: int| 0 <= i < s.len() ==> (#[trigger] s[i]).0 < 8 && s[i].1 < 8
}

proof fn lemma_concat_in_board(a: Seq<(usize, usize)>, c: Seq<(usize, usize)>)
    requires
        all_in_board(a),
        all_in_board(c),
    ensures
        all_in_board(a + c),
{
    assert forall|i: int| 0 <= i < (a + c).len() implies (#[trigger] (a + c)[i]).0 < 8 && (a
        + c)[i].1 < 8 by {
        if i < a.len() {
            assert((a + c)[i] == a[i]);
        } else {
            assert((a + c)[i] == c[i - a.len()]);
        }
    }
}

proof fn lemma_ray_in_board(
    b: Seq<Option<Piece>>,
    side: Side,
    x: int,
    y: int,
    dx: int,
    dy: int,
    fuel: nat,
)
    ensures
        all_in_board(ray(b, side, x, y, dx, dy, fuel)),
    decreases fuel,
{
    if fuel > 0 && in_board(x, y) {
        lemma_ray_in_board(b, side, x + dx, y + dy, dx, dy, (fuel - 1) as nat);
        if piece_at(b, x, y) is None {
            lemma_concat_in_board(
                seq![sq(x, y)],
                ray(b, side, x + dx, y + dy, dx, dy, (fuel - 1) as nat),
            );
        }
    }
}

proof fn lemma_rays_in_board(b: Seq<Option<Piece>>, side: Side, x: int, y: int, dirs: Seq<(int, int)>)
    ensures
        all_in_board(rays(b, side, x, y, dirs)),
    decreases dirs.len(),
{
    if dirs.len() > 0 {
        let d = dirs.last();
        lemma_rays_in_board(b, side, x, y, dirs.drop_last());
        lemma_ray_in_board(b, side, x + d.0, y + d.1, d.0, d.1, max_ray_steps());
        lemma_concat_in_board(
            rays(b, side, x, y, dirs.drop_last()),
            ray(b, side, x + d.0, y + d.1, d.0, d.1, max_ray_steps()),
        );
    }
}

proof fn lemma_jumps_in_board(
    b: Seq<Option<Piece>>,
    side: Side,
    x: int,
    y: int,
    offs: Seq<(int, int)>,
    avoid: Option<(usize, usize)>,
)
    ensures
        all_in_board(jumps(b, side, x, y, offs, avoid)),
    decreases offs.len(),
{
    if offs.len() > 0 {
        lemma_jumps_in_board(b, side, x, y, offs.drop_last(), avoid);
    }
}

/// Every move the generator lists lies on the board, for every board, square
/// and kind of piece.
pub proof fn lemma_pseudo_moves_in_board(b: Seq<Option<Piece>>, x: int, y: int, i: int)
    requires
        0 <= i < pseudo_moves(b, x, y).len(),
    ensures
        pseudo_moves(b, x, y)[i].0 < 8,
        pseudo_moves(b, x, y)[i].1 < 8,
{
    reveal(pseudo_moves);
    match piece_at(b, x, y) {
        None => {},
        Some(p) => match p.kind {
            PieceType::Pawn => {
                let d = pawn_dir(p.side);
                let pm = pawn_moves(b, x, y, p);
                assert(all_in_board(pm));
            },
            PieceType::Knight => {
                lemma_jumps_in_board(b, p.side, x, y, knight_offsets(), None);
            },
            PieceType::King => {
                match first_king(b, opposite(p.side), 0) {
                    None => {},
                    Some(k) => {
                        lemma_jumps_in_board(b, p.side, x, y, king_offsets(), Some(k));
                    },
                }
            },
            _ => {
                lemma_rays_in_board(b, p.side, x, y, slide_dirs(p.kind));
            },
        },
    }
}

/// The i-th knight jump.
fn knight_offset(i: usize) -> (r: (i32, i32))
    requires
        i < 8,
    ensures
        r.0 as int == knight_offsets()[i as int].0,
        r.1 as int == knight_offsets()[i as int].1,
{
    match i {
        0 => (-1, -2),
        1 => (1, -2),
        2 => (2, -1),
        3 => (2, 1),
        4 => (1, 2),
        5 => (-1, 2),
        6 => (-2, 1),
        _ => (-2, -1),
    }
}

/// The i-th king step.
fn king_offset(i: usize) -> (r: (i32, i32))
    requires
        i < 8,
    ensures
        r.0 as int == king_offsets()[i as int].0,
        r.1 as int == king_offsets()[i as int].1,
{
    match i {
        0 => (1, 0),
        1 => (1, 1),
        2 => (0, 1),
        3 => (-1, 1),
        4 => (-1, 0),
        5 => (-1, -1),
        6 => (0, -1),
        _ => (1, -1),
    }
}

/// The i-th direction a sliding piece of `kind` walks.
fn slide_dir(kind: PieceType, i: usize) -> (r: (i32, i32))
    requires
        i < slide_dirs(kind).len(),
    ensures
        r.0 as int == slide_dirs(kind)[i as int].0,
        r.1 as int == slide_dirs(kind)[i as int].1,
{
    let diag = match kind {
        PieceType::Rook => false,
        PieceType::Bishop => true,
        _ => i < 4,
    };
    let j = if i >= 4 {
        i - 4
    } else {
        i
    };
    if diag {
        match j {
            0 => (1, 1),
            1 => (1, -1),
            2 => (-1, 1),
            _ => (-1, -1),
        }
    } else {
        match j {
            0 => (1, 0),
            1 => (-1, 0),
            2 => (0, 1),
            _ => (0, -1),
        }
    }
}

/// Number of directions a sliding piece of `kind` walks.
fn slide_dir_count(kind: PieceType) -> (r: usize)
    ensures
        r == slide_dirs(kind).len(),
{
    match kind {
        PieceType::Rook => 4,
        PieceType::Bishop => 4,
        _ => 8,
    }
}

/// Number of king steps between two squares.
pub fn get_distance_between_direct_coords(a: (usize, usize), b: (usize, usize)) -> (r: usize)
    requires
        a.0 < 8,
        a.1 < 8,
        b.0 < 8,
        b.1 < 8,
    ensures
        r as int == chebyshev(a.0 as int, a.1 as int, b.0 as int, b.1 as int),
{
    let dx = if a.0 >= b.0 {
        a.0 - b.0
    } else {
        b.0 - a.0
    };
    let dy = if a.1 >= b.1 {
        a.1 - b.1
    } else {
        b.1 - a.1
    };
    if dx >= dy {
        dx
    } else {
        dy
    }
}

/// Whether `v` lists `s`.
pub fn contains_square(v: &Vec<(usize, usize)>, s: (usize, usize)) -> (r: bool)
    ensures
        r == v@.contains(s),
{
    let mut i: usize = 0;
    while i < v.len()
        invariant
            i <= v@.len(),
            forall|j: int| 0 <= j < i ==> v@[j] != s,
        decreases v@.len() - i,
    {
        let e = v[i];
        if e.0 == s.0 && e.1 == s.1 {
            return true;
        }
        i = i + 1;
    }
    false
}

impl Board {
    /// Appends to `moves` the ray of a sliding piece of `side` that starts at
    /// `start` and steps by `step`.
    pub fn get_pieces_linear_moves(
        &self,
        moves: &mut Vec<(usize, usize)>,
        start: (i32, i32),
        step: (i32, i32),
        side: Side,
    )
        requires
            self.wf(),
            -1 <= step.0 <= 1,
            -1 <= step.1 <= 1,
        ensures
            final(moves)@ == old(moves)@ + ray(
                self@,
                side,
                start.0 as int,
                start.1 as int,
                step.0 as int,
                step.1 as int,
                max_ray_steps(),
            ),
            forall|i: int|
                old(moves)@.len() <= i < final(moves)@.len() ==> (#[trigger] final(moves)@[i]).0
                    < 8 && final(moves)@[i].1 < 8,
    {
        let ghost b = self@;
        let ghost whole = ray(
            b,
            side,
            start.0 as int,
            start.1 as int,
            step.0 as int,
            step.1 as int,
            max_ray_steps(),
        );
        let (dx, dy) = step;
        let mut cx: i32 = start.0;
        let mut cy: i32 = start.1;
        let mut fuel: usize = 8;
        while fuel > 0 && is_coord_in_board((cx, cy))
            invariant
                self.wf(),
                self@ == b,
                (cx == start.0 && cy == start.1) || (-1 <= cx <= 8 && -1 <= cy <= 8),
                -1 <= dx <= 1,
                -1 <= dy <= 1,
                fuel <= 8,
                old(moves)@ + whole == moves@ + ray(
                    b,
                    side,
                    cx as int,
                    cy as int,
                    dx as int,
                    dy as int,
                    fuel as nat,
                ),
            decreases fuel,
        {
            let ghost before = moves@;
            let (_, owner) = self.is_piece_on_coords(cx as usize, cy as usize);
            match owner {
                Some(s) => {
                    if s != side {
                        moves.push((cx as usize, cy as usize));
                    }
                    fuel = 0;
                    assert(old(moves)@ + whole =~= moves@ + ray(
                        b,
                        side,
                        cx as int,
                        cy as int,
                        dx as int,
                        dy as int,
                        fuel as nat,
                    ));
                },
                None => {
                    moves.push((cx as usize, cy as usize));
                    let ghost rest = ray(
                        b,
                        side,
                        cx + dx,
                        cy + dy,
                        dx as int,
                        dy as int,
                        (fuel - 1) as nat,
                    );
                    assert(before + (seq![sq(cx as int, cy as int)] + rest) =~= moves@ + rest);
                    cx = cx + dx;
                    cy = cy + dy;
                    fuel = fuel - 1;
                },
            }
        }
        assert(old(moves)@ + whole =~= moves@);
        proof {
            lemma_ray_in_board(
                b,
                side,
                start.0 as int,
                start.1 as int,
                dx as int,
                dy as int,
                max_ray_steps(),
            );
            assert forall|i: int| old(moves)@.len() <= i < moves@.len() implies (#[trigger] moves@[
                i]).0 < 8 && moves@[i].1 < 8 by {
                assert(moves@[i] == whole[i - old(moves)@.len()]);
            }
        }
    }

    /// Appends to `moves` the squares that a piece of `side` on (x, y)
    /// reaches with the first `n` offsets of a knight, or of a king that
    /// keeps two steps away from `avoid`.
    fn push_jumps(
        &self,
        moves: &mut Vec<(usize, usize)>,
        x: usize,
        y: usize,
        side: Side,
        knight: bool,
        avoid: Option<(usize, usize)>,
    )
        requires
            self.wf(),
            x < 8,
            y < 8,
            avoid matches Some(k) ==> k.0 < 8 && k.1 < 8,
        ensures
            final(moves)@ == old(moves)@ + jumps(
                self@,
                side,
                x as int,
                y as int,
                if knight {
                    knight_offsets()
                } else {
                    king_offsets()
                },
                avoid,
            ),
    {
        let ghost offs = if knight {
            knight_offsets()
        } else {
            king_offsets()
        };
        let mut i: usize = 0;
        while i < 8
            invariant
                self.wf(),
                x < 8,
                y < 8,
                i <= 8,
                offs.len() == 8,
                offs == if knight {
                    knight_offsets()
                } else {
                    king_offsets()
                },
                avoid matches Some(k) ==> k.0 < 8 && k.1 < 8,
                moves@ == old(moves)@ + jumps(
                    self@,
                    side,
                    x as int,
                    y as int,
                    offs.take(i as int),
                    avoid,
                ),
            decreases 8 - i,
        {
            let (ox, oy) = if knight {
                knight_offset(i)
            } else {
                king_offset(i)
            };
            let tx = x as i32 + ox;
            let ty = y as i32 + oy;
            let mut ok = is_coord_in_board((tx, ty));
            if ok {
                let (_, owner) = self.is_piece_on_coords(tx as usize, ty as usize);
                if owner == Some(side) {
                    ok = false;
                }
            }
            if ok {
                match avoid {
                    Some(k) => {
                        if get_distance_between_direct_coords((tx as usize, ty as usize), k) < 2 {
                            ok = false;
                        }
                    },
                    None => {},
                }
            }
            let ghost prev = moves@;
            if ok {
                moves.push((tx as usize, ty as usize));
            }
            assert(offs.take(i as int + 1).drop_last() =~= offs.take(i as int));
            i = i + 1;
            assert(moves@ =~= old(moves)@ + jumps(
                self@,
                side,
                x as int,
                y as int,
                offs.take(i as int),
                avoid,
            ));
        }
        assert(offs.take(8) =~= offs);
    }

    /// The square of the first king of `side` in row-major order.
    pub fn find_first_king(&self, side: Side) -> (r: Option<(usize, usize)>)
        requires
            self.wf(),
        ensures
            r == first_king(self@, side, 0),
            r matches Some(k) ==> k.0 < 8 && k.1 < 8,
    {
        let mut i: usize = 0;
        while i < TILES
            invariant
                self.wf(),
                i <= TILES,
                first_king(self@, side, 0) == first_king(self@, side, i as int),
            decreases TILES - i,
        {
            match self.tiles[i].piece {
                Some(p) => {
                    if p.kind == PieceType::King && p.side == side {
                        return Some((i % 8, i / 8));
                    }
                },
                None => {},
            }
            i = i + 1;
        }
        None
    }

    /// The square of the last king of `side` in row-major order.
    pub fn find_last_king(&self, side: Side) -> (r: Option<(usize, usize)>)
        requires
            self.wf(),
        ensures
            r == last_king(self@, side, 64),
    {
        let mut king: Option<(usize, usize)> = None;
        let mut i: usize = 0;
        while i < TILES
            invariant
                self.wf(),
                i <= TILES,
                king == last_king(self@, side, i as int),
            decreases TILES - i,
        {
            match self.tiles[i].piece {
                Some(p) => {
                    if p.kind == PieceType::King && p.side == side {
                        king = Some((i % 8, i / 8));
                    }
                },
                None => {},
            }
            i = i + 1;
        }
        king
    }

    /// The pseudo-legal moves of the piece on (x, y); none for an empty
    /// square.
    pub fn piece_moves(&self, x: usize, y: usize) -> (r: Vec<(usize, usize)>)
        requires
            self.wf(),
            x < 8,
            y < 8,
        ensures
            r@ == pseudo_moves(self@, x as int, y as int),
    {
        reveal(pseudo_moves);
        let mut moves: Vec<(usize, usize)> = Vec::new();
        let piece = match self.get(x, y) {
            Some(p) => p,
            None => {
                return moves;
            },
        };
        match piece.kind {
            PieceType::Pawn => {
                self.push_pawn_moves(&mut moves, x, y, piece);
            },
            PieceType::Knight => {
                self.push_jumps(&mut moves, x, y, piece.side, true, None);
            },
            PieceType::King => {
                let enemy_king = self.find_first_king(piece.side.opponent());
                match enemy_king {
                    Some(k) => {
                        self.push_jumps(&mut moves, x, y, piece.side, false, Some(k));
                    },
                    None => {},
                }
            },
            _ => {
                let n = slide_dir_count(piece.kind);
                let ghost dirs = slide_dirs(piece.kind);
                let mut i: usize = 0;
                while i < n
                    invariant
                        self.wf(),
                        x < 8,
                        y < 8,
                        i <= n,
                        n == dirs.len(),
                        dirs == slide_dirs(piece.kind),
                        moves@ == rays(self@, piece.side, x as int, y as int, dirs.take(i as int)),
                    decreases n - i,
                {
                    let (dx, dy) = slide_dir(piece.kind, i);
                    self.get_pieces_linear_moves(
                        &mut moves,
                        (x as i32 + dx, y as i32 + dy),
                        (dx, dy),
                        piece.side,
                    );
                    assert(dirs.take(i as int + 1).drop_last() =~= dirs.take(i as int));
                    i = i + 1;
                }
                assert(dirs.take(n as int) =~= dirs);
            },
        }
        moves
    }

    /// Appends the moves of pawn `p` standing on (x, y).
    fn push_pawn_moves(&self, moves: &mut Vec<(usize, usize)>, x: usize, y: usize, p: Piece)
        requires
            self.wf(),
            x < 8,
            y < 8,
        ensures
            final(moves)@ == old(moves)@ + pawn_moves(self@, x as int, y as int, p),
    {
        let ghost b = self@;
        let d: i32 = if p.side == Side::White {
            -1
        } else {
            1
        };
        let xi = x as i32;
        let yi = y as i32;
        let ghost start = moves@;
        if is_coord_in_board((xi, yi + d)) && !self.is_piece_on_coords(x, (yi + d) as usize).0 {
            moves.push((x, (yi + d) as usize));
            if !p.did_move && is_coord_in_board((xi, yi + 2 * d)) && !self.is_piece_on_coords(
                x,
                (yi + 2 * d) as usize,
            ).0 {
                moves.push((x, (yi + 2 * d) as usize));
            }
        }
        let ghost after_forward = moves@;
        let enemy = p.side.opponent();
        if is_coord_in_board((xi - 1, yi + d)) && self.is_piece_on_coords(
            (xi - 1) as usize,
            (yi + d) as usize,
        ).1 == Some(enemy) {
            moves.push(((xi - 1) as usize, (yi + d) as usize));
        }
        let ghost after_left = moves@;
        if is_coord_in_board((xi + 1, yi + d)) && self.is_piece_on_coords(
            (xi + 1) as usize,
            (yi + d) as usize,
        ).1 == Some(enemy) {
            moves.push(((xi + 1) as usize, (yi + d) as usize));
        }
        assert(moves@ =~= start + pawn_moves(b, x as int, y as int, p));
    }

    /// Whether the king of `side` is in check on this board.
    pub fn is_check(&self, side: Side) -> (r: bool)
        requires
            self.wf(),
        ensures
            r == in_check(self@, side),
    {
        let king = match self.find_last_king(side) {
            Some(k) => k,
            None => {
                return false;
            },
        };
        let mut i: usize = 0;
        while i < TILES
            invariant
                self.wf(),
                i <= TILES,
                last_king(self@, side, 64) == Some(king),
                forall|j: int| 0 <= j < i ==> !#[trigger] attacks(self@, side, j, king),
            decreases TILES - i,
        {
            match self.tiles[i].piece {
                Some(p) => {
                    if p.side != side {
                        let moves = self.piece_moves(i % 8, i / 8);
                        if contains_square(&moves, king) {
                            assert(attacks(self@, side, i as int, king));
                            return true;
                        }
                    }
                },
                None => {},
            }
            i = i + 1;
        }
        false
    }
}

} // verus!
