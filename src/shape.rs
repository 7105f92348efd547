use vstd::prelude::*;

use crate::board::{in_board, owned_by, piece_at, square_of, tile_index};
use crate::moves::{
    attacked, attacks, first_king, in_check, jump_ok, jumps, last_king, pawn_capture, pawn_dir,
    pawn_forward, pawn_moves, pseudo_moves, ray, rays, slide_dirs, king_offsets, knight_offsets,
    max_ray_steps, sq,
};
use crate::piece::{opposite, Piece, PieceType, Side};

verus! {

/// The kind and side of what stands on a square, leaving out whether the
/// piece has moved.
pub open spec fn shape(o: Option<Piece>) -> Option<(PieceType, Side)> {
    match o {
        Some(p) => Some((p.kind, p.side)),
        None => None,
    }
}

/// Two boards hold the same kinds of pieces of the same sides on every
/// square; they may differ only in which pieces have moved.
pub open spec fn same_shape(b1: Seq<Option<Piece>>, b2: Seq<Option<Piece>>) -> bool {
    &&& b1.len() == 64
    &&& b2.len() == 64
    &&& forall|i: int| 0 <= i < 64 ==> #[trigger] shape(b1[i]) == shape(b2[i])
}

proof fn lemma_same_at(b1: Seq<Option<Piece>>, b2: Seq<Option<Piece>>, x: int, y: int)
    requires
        same_shape(b1, b2),
        in_board(x, y),
    ensures
        (piece_at(b1, x, y) is None) == (piece_at(b2, x, y) is None),
        owned_by(b1, x, y, Side::White) == owned_by(b2, x, y, Side::White),
        owned_by(b1, x, y, Side::Black) == owned_by(b2, x, y, Side::Black),
        piece_at(b1, x, y) matches Some(p) ==> (piece_at(b2, x, y) matches Some(q) && q.kind
            == p.kind && q.side == p.side),
{
    assert(shape(b1[tile_index(x, y)]) == shape(b2[tile_index(x, y)]));
}

proof fn lemma_owned_same(b1: Seq<Option<Piece>>, b2: Seq<Option<Piece>>, x: int, y: int, side: Side)
    requires
        same_shape(b1, b2),
        in_board(x, y),
    ensures
        owned_by(b1, x, y, side) == owned_by(b2, x, y, side),
{
    lemma_same_at(b1, b2, x, y);
}

proof fn lemma_ray_same(
    b1: Seq<Option<Piece>>,
    b2: Seq<Option<Piece>>,
    side: Side,
    x: int,
    y: int,
    dx: int,
    dy: int,
    fuel: nat,
)
    requires
        same_shape(b1, b2),
    ensures
        ray(b1, side, x, y, dx, dy, fuel) == ray(b2, side, x, y, dx, dy, fuel),
    decreases fuel,
{
    if fuel > 0 && in_board(x, y) {
        lemma_same_at(b1, b2, x, y);
        lemma_ray_same(b1, b2, side, x + dx, y + dy, dx, dy, (fuel - 1) as nat);
    }
}

proof fn lemma_rays_same(
    b1: Seq<Option<Piece>>,
    b2: Seq<Option<Piece>>,
    side: Side,
    x: int,
    y: int,
    dirs: Seq<(int, int)>,
)
    requires
        same_shape(b1, b2),
    ensures
        rays(b1, side, x, y, dirs) == rays(b2, side, x, y, dirs),
    decreases dirs.len(),
{
    if dirs.len() > 0 {
        let d = dirs.last();
        lemma_rays_same(b1, b2, side, x, y, dirs.drop_last());
        lemma_ray_same(b1, b2, side, x + d.0, y + d.1, d.0, d.1, max_ray_steps());
    }
}

proof fn lemma_jumps_same(
    b1: Seq<Option<Piece>>,
    b2: Seq<Option<Piece>>,
    side: Side,
    x: int,
    y: int,
    offs: Seq<(int, int)>,
    avoid: Option<(usize, usize)>,
)
    requires
        same_shape(b1, b2),
    ensures
        jumps(b1, side, x, y, offs, avoid) == jumps(b2, side, x, y, offs, avoid),
    decreases offs.len(),
{
    if offs.len() > 0 {
        let o = offs.last();
        lemma_jumps_same(b1, b2, side, x, y, offs.drop_last(), avoid);
        if in_board(x + o.0, y + o.1) {
            lemma_owned_same(b1, b2, x + o.0, y + o.1, side);
        }
        assert(jump_ok(b1, side, x + o.0, y + o.1, avoid) == jump_ok(
            b2,
            side,
            x + o.0,
            y + o.1,
            avoid,
        ));
    }
}

proof fn lemma_first_king_same(b1: Seq<Option<Piece>>, b2: Seq<Option<Piece>>, side: Side, i: int)
    requires
        same_shape(b1, b2),
    ensures
        first_king(b1, side, i) == first_king(b2, side, i),
    decreases 64 - i,
{
    if 0 <= i < 64 {
        assert(shape(b1[i]) == shape(b2[i]));
        lemma_first_king_same(b1, b2, side, i + 1);
    }
}

proof fn lemma_last_king_same(b1: Seq<Option<Piece>>, b2: Seq<Option<Piece>>, side: Side, n: int)
    requires
        same_shape(b1, b2),
    ensures
        last_king(b1, side, n) == last_king(b2, side, n),
    decreases n,
{
    if 0 < n <= 64 {
        assert(shape(b1[n - 1]) == shape(b2[n - 1]));
        lemma_last_king_same(b1, b2, side, n - 1);
    }
}

/// The king that `last_king` finds stands on the board.
proof fn lemma_last_king_occupied(b: Seq<Option<Piece>>, side: Side, n: int)
    ensures
        last_king(b, side, n) matches Some(k) ==> k.0 < 8 && k.1 < 8 && piece_at(
            b,
            k.0 as int,
            k.1 as int,
        ) is Some,
    decreases n,
{
    if 0 < n <= 64 {
        let i = n - 1;
        assert(tile_index(square_of(i).0 as int, square_of(i).1 as int) == i);
        lemma_last_king_occupied(b, side, n - 1);
    }
}

proof fn lemma_contains_concat(a: Seq<(usize, usize)>, c: Seq<(usize, usize)>, t: (usize, usize))
    ensures
        (a + c).contains(t) <==> a.contains(t) || c.contains(t),
{
    if (a + c).contains(t) {
        let i = choose|i: int| 0 <= i < (a + c).len() && (a + c)[i] == t;
        if i < a.len() {
            assert(a[i] == t);
        } else {
            assert(c[i - a.len()] == t);
        }
    }
    if a.contains(t) {
        let i = choose|i: int| 0 <= i < a.len() && a[i] == t;
        assert((a + c)[i] == t);
    }
    if c.contains(t) {
        let i = choose|i: int| 0 <= i < c.len() && c[i] == t;
        assert((a + c)[i + a.len()] == t);
    }
}

/// A pawn's forward squares are empty, so they never hold a piece.
proof fn lemma_forward_not_occupied(b: Seq<Option<Piece>>, x: int, y: int, p: Piece, t: (usize, usize))
    requires
        t.0 < 8,
        t.1 < 8,
        piece_at(b, t.0 as int, t.1 as int) is Some,
    ensures
        !pawn_forward(b, x, y, p).contains(t),
{
    let f = pawn_forward(b, x, y, p);
    if f.contains(t) {
        let i = choose|i: int| 0 <= i < f.len() && f[i] == t;
        assert(f[i] == t);
    }
}

/// Whether a piece reaches an occupied square does not depend on which
/// pieces have moved.
proof fn lemma_reaches_occupied_same(
    b1: Seq<Option<Piece>>,
    b2: Seq<Option<Piece>>,
    x: int,
    y: int,
    t: (usize, usize),
)
    requires
        same_shape(b1, b2),
        in_board(x, y),
        t.0 < 8,
        t.1 < 8,
        piece_at(b1, t.0 as int, t.1 as int) is Some,
    ensures
        pseudo_moves(b1, x, y).contains(t) == pseudo_moves(b2, x, y).contains(t),
{
    reveal(pseudo_moves);
    lemma_same_at(b1, b2, x, y);
    lemma_same_at(b1, b2, t.0 as int, t.1 as int);
    match piece_at(b1, x, y) {
        None => {},
        Some(p1) => {
            let p2 = piece_at(b2, x, y)->Some_0;
            match p1.kind {
                PieceType::Pawn => {
                    let d = pawn_dir(p1.side);
                    if in_board(x - 1, y + d) {
                        lemma_owned_same(b1, b2, x - 1, y + d, opposite(p1.side));
                    }
                    if in_board(x + 1, y + d) {
                        lemma_owned_same(b1, b2, x + 1, y + d, opposite(p1.side));
                    }
                    let l1 = pawn_capture(b1, x - 1, y + d, p1.side);
                    let r1 = pawn_capture(b1, x + 1, y + d, p1.side);
                    assert(l1 == pawn_capture(b2, x - 1, y + d, p2.side));
                    assert(r1 == pawn_capture(b2, x + 1, y + d, p2.side));
                    let f1 = pawn_forward(b1, x, y, p1);
                    let f2 = pawn_forward(b2, x, y, p2);
                    lemma_forward_not_occupied(b1, x, y, p1, t);
                    lemma_forward_not_occupied(b2, x, y, p2, t);
                    lemma_contains_concat(f1 + l1, r1, t);
                    lemma_contains_concat(f1, l1, t);
                    lemma_contains_concat(f2 + l1, r1, t);
                    lemma_contains_concat(f2, l1, t);
                    assert(pawn_moves(b1, x, y, p1) == f1 + l1 + r1);
                    assert(pawn_moves(b2, x, y, p2) == f2 + l1 + r1);
                },
                PieceType::Knight => {
                    lemma_jumps_same(b1, b2, p1.side, x, y, knight_offsets(), None);
                },
                PieceType::King => {
                    lemma_first_king_same(b1, b2, opposite(p1.side), 0);
                    match first_king(b1, opposite(p1.side), 0) {
                        None => {},
                        Some(k) => {
                            lemma_jumps_same(b1, b2, p1.side, x, y, king_offsets(), Some(k));
                        },
                    }
                },
                _ => {
                    lemma_rays_same(b1, b2, p1.side, x, y, slide_dirs(p1.kind));
                },
            }
        },
    }
}

/// Check depends only on the kinds and sides of the pieces, not on which of
/// them have moved.
pub proof fn lemma_check_ignores_moved_flags(
    b1: Seq<Option<Piece>>,
    b2: Seq<Option<Piece>>,
    side: Side,
)
    requires
        same_shape(b1, b2),
    ensures
        in_check(b1, side) == in_check(b2, side),
{
    lemma_last_king_same(b1, b2, side, 64);
    lemma_last_king_occupied(b1, side, 64);
    match last_king(b1, side, 64) {
        None => {},
        Some(k) => {
            assert forall|i: int| 0 <= i < 64 implies #[trigger] attacks(b1, side, i, k) == attacks(
                b2,
                side,
                i,
                k,
            ) by {
                assert(shape(b1[i]) == shape(b2[i]));
                assert(tile_index(i % 8, i / 8) == i);
                lemma_reaches_occupied_same(b1, b2, i % 8, i / 8, k);
            }
            if attacked(b1, side, k) {
                let i = choose|i: int| 0 <= i < 64 && #[trigger] attacks(b1, side, i, k);
                assert(attacks(b2, side, i, k));
            }
            if attacked(b2, side, k) {
                let i = choose|i: int| 0 <= i < 64 && #[trigger] attacks(b2, side, i, k);
                assert(attacks(b1, side, i, k));
            }
        },
    }
}

} // verus!
