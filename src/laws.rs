use vstd::prelude::*;

use crate::board::{in_board, owned_by, piece_at, tile_index};
use crate::game::{turn_side, Game};
use crate::legality::{apply_move, legal_moves, lemma_legal_moves_safe};
use crate::moves::{
    first_king, lemma_pseudo_moves_in_board, in_check, jumps, king_offsets, knight_offsets, max_ray_steps, pseudo_moves, ray, sq,
};
use crate::piece::{opposite, Piece, PieceType, Side};
use crate::shape::{lemma_check_ignores_moved_flags, shape};

verus! {

/// A unit step: each coordinate is -1, 0 or 1 and the step is not null.
pub open spec fn unit_step(dx: int, dy: int) -> bool {
    -1 <= dx <= 1 && -1 <= dy <= 1 && (dx != 0 || dy != 0)
}

proof fn lemma_unit_mul(k: int, d: int)
    requires
        -1 <= d <= 1,
    ensures
        d == 1 ==> k * d == k,
        d == 0 ==> k * d == 0,
        d == -1 ==> k * d == -k,
        (k + 1) * d == k * d + d,
{
    assert((k + 1) * d == k * d + d) by (nonlinear_arith);
    assert(d == 1 ==> k * d == k) by (nonlinear_arith);
    assert(d == 0 ==> k * d == 0) by (nonlinear_arith);
    assert(d == -1 ==> k * d == -k) by (nonlinear_arith);
}

/// Two squares on the board with the same engine coordinates are the same.
proof fn lemma_sq_injective(x1: int, y1: int, x2: int, y2: int)
    requires
        in_board(x1, y1),
        in_board(x2, y2),
        sq(x1, y1) == sq(x2, y2),
    ensures
        x1 == x2,
        y1 == y2,
{
}

/// The walk from (cx, cy) reaches the square `k` steps further iff every
/// square before it is empty and it does not hold a piece of `side`.
proof fn lemma_ray_walk(
    b: Seq<Option<Piece>>,
    side: Side,
    cx: int,
    cy: int,
    dx: int,
    dy: int,
    fuel: nat,
    k: int,
)
    requires
        unit_step(dx, dy),
        in_board(cx, cy),
        0 <= k < fuel,
        in_board(cx + k * dx, cy + k * dy),
    ensures
        ray(b, side, cx, cy, dx, dy, fuel).contains(sq(cx + k * dx, cy + k * dy)) <==> (forall|j: int|
            0 <= j < k ==> #[trigger] piece_at(b, cx + j * dx, cy + j * dy) is None) && !owned_by(
            b,
            cx + k * dx,
            cy + k * dy,
            side,
        ),
    decreases k,
{
    lemma_unit_mul(k, dx);
    lemma_unit_mul(k, dy);
    lemma_unit_mul(0, dx);
    lemma_unit_mul(0, dy);
    let r = ray(b, side, cx, cy, dx, dy, fuel);
    let target = sq(cx + k * dx, cy + k * dy);
    let rest = ray(b, side, cx + dx, cy + dy, dx, dy, (fuel - 1) as nat);
    if k == 0 {
        match piece_at(b, cx, cy) {
            None => {
                assert(r[0] == target);
            },
            Some(p) => {
                if p.side != side {
                    assert(r[0] == target);
                }
            },
        }
    } else {
        lemma_unit_mul(k - 1, dx);
        lemma_unit_mul(k - 1, dy);
        // The square k steps away differs from the first one.
        assert(sq(cx, cy) != target) by {
            if sq(cx, cy) == target {
                lemma_sq_injective(cx, cy, cx + k * dx, cy + k * dy);
            }
        }
        match piece_at(b, cx, cy) {
            None => {
                // The next square lies between two squares of the board.
                assert(in_board(cx + dx, cy + dy));
                lemma_ray_walk(b, side, cx + dx, cy + dy, dx, dy, (fuel - 1) as nat, k - 1);
                assert((cx + dx) + (k - 1) * dx == cx + k * dx);
                assert((cy + dy) + (k - 1) * dy == cy + k * dy);
                assert(r == seq![sq(cx, cy)] + rest);
                assert(r.contains(target) <==> rest.contains(target)) by {
                    if r.contains(target) {
                        let i = choose|i: int| 0 <= i < r.len() && r[i] == target;
                        assert(i > 0);
                        assert(rest[i - 1] == target);
                    }
                    if rest.contains(target) {
                        let i = choose|i: int| 0 <= i < rest.len() && rest[i] == target;
                        assert(r[i + 1] == target);
                    }
                }
                assert((forall|j: int|
                    0 <= j < k ==> #[trigger] piece_at(b, cx + j * dx, cy + j * dy) is None) <==> (
                forall|j: int|
                    0 <= j < k - 1 ==> #[trigger] piece_at(
                        b,
                        (cx + dx) + j * dx,
                        (cy + dy) + j * dy,
                    ) is None)) by {
                    if forall|j: int|
                        0 <= j < k - 1 ==> #[trigger] piece_at(
                            b,
                            (cx + dx) + j * dx,
                            (cy + dy) + j * dy,
                        ) is None {
                        assert forall|j: int| 0 <= j < k implies #[trigger] piece_at(
                            b,
                            cx + j * dx,
                            cy + j * dy,
                        ) is None by {
                            lemma_unit_mul(j - 1, dx);
                            lemma_unit_mul(j - 1, dy);
                            if j > 0 {
                                assert(piece_at(b, (cx + dx) + (j - 1) * dx, (cy + dy) + (j - 1)
                                    * dy) is None);
                            }
                        }
                    }
                    if forall|j: int|
                        0 <= j < k ==> #[trigger] piece_at(b, cx + j * dx, cy + j * dy) is None {
                        assert forall|j: int| 0 <= j < k - 1 implies #[trigger] piece_at(
                            b,
                            (cx + dx) + j * dx,
                            (cy + dy) + j * dy,
                        ) is None by {
                            lemma_unit_mul(j, dx);
                            lemma_unit_mul(j, dy);
                            assert(piece_at(b, cx + (j + 1) * dx, cy + (j + 1) * dy) is None);
                        }
                    }
                }
            },
            Some(p) => {
                assert(!r.contains(target)) by {
                    if r.contains(target) {
                        let i = choose|i: int| 0 <= i < r.len() && r[i] == target;
                        assert(r[i] == sq(cx, cy));
                    }
                }
                assert(piece_at(b, cx + 0 * dx, cy + 0 * dy) is Some);
            },
        }
    }
}

/// A sliding piece's walk in one direction stops at the first occupied
/// square: a square of the line through (x, y) in direction (dx, dy) is
/// reached exactly when every square before it is empty and it does not
/// hold a piece of the mover's side. Past an occupied square nothing is
/// reached.
pub proof fn lemma_ray_stops_at_first_piece(
    b: Seq<Option<Piece>>,
    side: Side,
    x: int,
    y: int,
    dx: int,
    dy: int,
    k: int,
)
    requires
        in_board(x, y),
        unit_step(dx, dy),
        k >= 1,
        in_board(x + k * dx, y + k * dy),
    ensures
        ray(b, side, x + dx, y + dy, dx, dy, max_ray_steps()).contains(sq(x + k * dx, y + k * dy))
            <==> (forall|j: int|
            1 <= j < k ==> #[trigger] piece_at(b, x + j * dx, y + j * dy) is None) && !owned_by(
            b,
            x + k * dx,
            y + k * dy,
            side,
        ),
{
    lemma_unit_mul(k, dx);
    lemma_unit_mul(k, dy);
    lemma_unit_mul(k - 1, dx);
    lemma_unit_mul(k - 1, dy);
    assert(in_board(x + dx, y + dy));
    assert(k - 1 < 8);
    lemma_ray_walk(b, side, x + dx, y + dy, dx, dy, max_ray_steps(), k - 1);
    assert((x + dx) + (k - 1) * dx == x + k * dx);
    assert((y + dy) + (k - 1) * dy == y + k * dy);
    if forall|j: int| 1 <= j < k ==> #[trigger] piece_at(b, x + j * dx, y + j * dy) is None {
        assert forall|j: int| 0 <= j < k - 1 implies #[trigger] piece_at(
            b,
            (x + dx) + j * dx,
            (y + dy) + j * dy,
        ) is None by {
            lemma_unit_mul(j, dx);
            lemma_unit_mul(j, dy);
            assert(piece_at(b, x + (j + 1) * dx, y + (j + 1) * dy) is None);
        }
    }
    if forall|j: int|
        0 <= j < k - 1 ==> #[trigger] piece_at(b, (x + dx) + j * dx, (y + dy) + j * dy) is None {
        assert forall|j: int| 1 <= j < k implies #[trigger] piece_at(
            b,
            x + j * dx,
            y + j * dy,
        ) is None by {
            lemma_unit_mul(j - 1, dx);
            lemma_unit_mul(j - 1, dy);
            assert(piece_at(b, (x + dx) + (j - 1) * dx, (y + dy) + (j - 1) * dy) is None);
        }
    }
}

/// The i-th square of the walk from (cx, cy) is `i` steps along the line.
proof fn lemma_ray_on_line(
    b: Seq<Option<Piece>>,
    side: Side,
    cx: int,
    cy: int,
    dx: int,
    dy: int,
    fuel: nat,
    i: int,
)
    requires
        -1 <= dx <= 1,
        -1 <= dy <= 1,
        0 <= i < ray(b, side, cx, cy, dx, dy, fuel).len(),
    ensures
        ray(b, side, cx, cy, dx, dy, fuel)[i] == sq(cx + i * dx, cy + i * dy),
        in_board(cx + i * dx, cy + i * dy),
    decreases fuel,
{
    let r = ray(b, side, cx, cy, dx, dy, fuel);
    let rest = ray(b, side, cx + dx, cy + dy, dx, dy, (fuel - 1) as nat);
    lemma_unit_mul(0, dx);
    lemma_unit_mul(0, dy);
    if i > 0 {
        assert(r[i] == rest[i - 1]);
        lemma_ray_on_line(b, side, cx + dx, cy + dy, dx, dy, (fuel - 1) as nat, i - 1);
        lemma_unit_mul(i - 1, dx);
        lemma_unit_mul(i - 1, dy);
    }
}

/// A sliding piece's walk in one direction lists only squares of the board
/// on the line through (x, y), one step further each time, without
/// skipping any.
pub proof fn lemma_ray_stays_on_line(
    b: Seq<Option<Piece>>,
    side: Side,
    x: int,
    y: int,
    dx: int,
    dy: int,
    i: int,
)
    requires
        unit_step(dx, dy),
        0 <= i < ray(b, side, x + dx, y + dy, dx, dy, max_ray_steps()).len(),
    ensures
        ray(b, side, x + dx, y + dy, dx, dy, max_ray_steps())[i] == sq(
            x + (i + 1) * dx,
            y + (i + 1) * dy,
        ),
        in_board(x + (i + 1) * dx, y + (i + 1) * dy),
{
    lemma_ray_on_line(b, side, x + dx, y + dy, dx, dy, max_ray_steps(), i);
    lemma_unit_mul(i, dx);
    lemma_unit_mul(i, dy);
}

/// Each square that a jumping piece reaches comes from one of the offsets,
/// and there are no more squares than offsets.
proof fn lemma_jumps_from_offsets(
    b: Seq<Option<Piece>>,
    side: Side,
    x: int,
    y: int,
    offs: Seq<(int, int)>,
    avoid: Option<(usize, usize)>,
    i: int,
)
    requires
        0 <= i < jumps(b, side, x, y, offs, avoid).len(),
    ensures
        jumps(b, side, x, y, offs, avoid).len() <= offs.len(),
        exists|j: int|
            0 <= j < offs.len() && in_board(x + offs[j].0, y + offs[j].1) && #[trigger] jumps(
                b,
                side,
                x,
                y,
                offs,
                avoid,
            )[i] == sq(x + offs[j].0, y + offs[j].1),
    decreases offs.len(),
{
    let r = jumps(b, side, x, y, offs, avoid);
    let prev = jumps(b, side, x, y, offs.drop_last(), avoid);
    if i < prev.len() {
        lemma_jumps_from_offsets(b, side, x, y, offs.drop_last(), avoid, i);
        let j = choose|j: int|
            0 <= j < offs.drop_last().len() && in_board(
                x + offs.drop_last()[j].0,
                y + offs.drop_last()[j].1,
            ) && #[trigger] prev[i] == sq(x + offs.drop_last()[j].0, y + offs.drop_last()[j].1);
        assert(r[i] == prev[i]);
        assert(offs[j] == offs.drop_last()[j]);
    } else {
        if prev.len() > 0 {
            lemma_jumps_from_offsets(b, side, x, y, offs.drop_last(), avoid, 0);
        }
        let j = offs.len() - 1;
        assert(r[i] == sq(x + offs[j].0, y + offs[j].1));
    }
}

/// A jumping piece whose offsets are distinct reaches distinct squares.
proof fn lemma_jumps_distinct(
    b: Seq<Option<Piece>>,
    side: Side,
    x: int,
    y: int,
    offs: Seq<(int, int)>,
    avoid: Option<(usize, usize)>,
)
    requires
        offs.no_duplicates(),
    ensures
        jumps(b, side, x, y, offs, avoid).no_duplicates(),
        jumps(b, side, x, y, offs, avoid).len() <= offs.len(),
    decreases offs.len(),
{
    let r = jumps(b, side, x, y, offs, avoid);
    if offs.len() > 0 {
        let rest = offs.drop_last();
        let prev = jumps(b, side, x, y, rest, avoid);
        assert(rest.no_duplicates());
        lemma_jumps_distinct(b, side, x, y, rest, avoid);
        let o = offs.last();
        if r.len() > prev.len() {
            let new = sq(x + o.0, y + o.1);
            assert forall|m: int| 0 <= m < prev.len() implies prev[m] != new by {
                lemma_jumps_from_offsets(b, side, x, y, rest, avoid, m);
                let j = choose|j: int|
                    0 <= j < rest.len() && in_board(x + rest[j].0, y + rest[j].1) && #[trigger] prev[m]
                        == sq(x + rest[j].0, y + rest[j].1);
                if prev[m] == new {
                    lemma_sq_injective(x + rest[j].0, y + rest[j].1, x + o.0, y + o.1);
                    assert(offs[j] == offs[offs.len() - 1]);
                }
            }
            assert forall|p: int, q: int| 0 <= p < r.len() && 0 <= q < r.len() && p != q implies r[p]
                != r[q] by {
                if p < prev.len() && q < prev.len() {
                    assert(r[p] == prev[p] && r[q] == prev[q]);
                } else if p < prev.len() {
                    assert(r[p] == prev[p]);
                } else if q < prev.len() {
                    assert(r[q] == prev[q]);
                }
            }
        }
    }
}

/// A knight reaches at most eight squares, all different.
pub proof fn lemma_knight_moves_distinct(b: Seq<Option<Piece>>, x: int, y: int)
    requires
        piece_at(b, x, y) matches Some(p) && p.kind == PieceType::Knight,
    ensures
        pseudo_moves(b, x, y).len() <= 8,
        pseudo_moves(b, x, y).no_duplicates(),
{
    reveal(pseudo_moves);
    let p = piece_at(b, x, y)->Some_0;
    let offs = knight_offsets();
    assert(offs.no_duplicates());
    lemma_jumps_distinct(b, p.side, x, y, offs, None);
}

/// A king reaches at most eight squares, all different.
pub proof fn lemma_king_moves_distinct(b: Seq<Option<Piece>>, x: int, y: int)
    requires
        piece_at(b, x, y) matches Some(p) && p.kind == PieceType::King,
    ensures
        pseudo_moves(b, x, y).len() <= 8,
        pseudo_moves(b, x, y).no_duplicates(),
{
    reveal(pseudo_moves);
    let p = piece_at(b, x, y)->Some_0;
    let offs = king_offsets();
    assert(offs.no_duplicates());
    match first_king(b, opposite(p.side), 0) {
        None => {},
        Some(k) => {
            lemma_jumps_distinct(b, p.side, x, y, offs, Some(k));
        },
    }
}

/// Making any legal move never leaves the mover's own king in check.
pub proof fn lemma_legal_move_keeps_king_safe(b: Seq<Option<Piece>>, x: int, y: int, m: (usize, usize))
    requires
        in_board(x, y),
        legal_moves(b, x, y).contains(m),
    ensures
        piece_at(b, x, y) matches Some(p) && !in_check(apply_move(b, sq(x, y), m), p.side),
{
    lemma_legal_moves_safe(b, x, y, m);
}

/// After the moves of a well-formed game's history, White is to move when
/// their number is even and Black when it is odd.
pub proof fn lemma_turn_alternation(g: Game)
    requires
        g.wf(),
    ensures
        g.side_to_move() == turn_side(g.move_records@.len() as int),
        g.move_records@.len() % 2 == 0 ==> g.side_to_move() == Side::White,
        g.move_records@.len() % 2 == 1 ==> g.side_to_move() == Side::Black,
{
    let n = g.move_records@.len() as int;
    if n > 0 {
        assert(g.move_records@[n - 1].side == turn_side(n - 1));
    }
}

/// A legal move onto a square held by the other side removes exactly that
/// piece: the mover now stands there marked as moved, its old square is
/// empty, and every other square is unchanged.
pub proof fn lemma_capture_removes_only_target(
    b: Seq<Option<Piece>>,
    from: (usize, usize),
    to: (usize, usize),
)
    requires
        b.len() == 64,
        from.0 < 8,
        from.1 < 8,
        to.0 < 8,
        to.1 < 8,
        legal_moves(b, from.0 as int, from.1 as int).contains(to),
        piece_at(b, from.0 as int, from.1 as int) matches Some(p) && piece_at(
            b,
            to.0 as int,
            to.1 as int,
        ) matches Some(q) && q.side != p.side,
    ensures
        ({
            let p = piece_at(b, from.0 as int, from.1 as int)->Some_0;
            let after = apply_move(b, from, to);
            &&& piece_at(after, to.0 as int, to.1 as int) == Some(Piece { did_move: true, ..p })
            &&& piece_at(after, from.0 as int, from.1 as int) is None
            &&& forall|i: int|
                0 <= i < 64 && i != tile_index(from.0 as int, from.1 as int) && i != tile_index(
                    to.0 as int,
                    to.1 as int,
                ) ==> #[trigger] after[i] == b[i]
        }),
{
    assert(tile_index(from.0 as int, from.1 as int) != tile_index(to.0 as int, to.1 as int));
}

/// The board after the piece on `from` moves to `to` as it is, its moved
/// flag left untouched.
pub open spec fn move_piece_as_is(b: Seq<Option<Piece>>, from: (usize, usize), to: (usize, usize)) -> Seq<
    Option<Piece>,
> {
    b.update(tile_index(to.0 as int, to.1 as int), piece_at(b, from.0 as int, from.1 as int)).update(
        tile_index(from.0 as int, from.1 as int),
        None,
    )
}

/// Making any legal move never leaves the mover's own king in check, also
/// when the moved piece keeps its moved flag as it was.
pub proof fn lemma_legal_move_keeps_king_safe_as_is(
    b: Seq<Option<Piece>>,
    x: int,
    y: int,
    m: (usize, usize),
)
    requires
        b.len() == 64,
        in_board(x, y),
        legal_moves(b, x, y).contains(m),
    ensures
        piece_at(b, x, y) matches Some(p) && !in_check(move_piece_as_is(b, sq(x, y), m), p.side),
{
    lemma_legal_moves_safe(b, x, y, m);
    let pm = pseudo_moves(b, x, y);
    let j = choose|j: int| 0 <= j < pm.len() && pm[j] == m;
    lemma_pseudo_moves_in_board(b, x, y, j);
    let p = piece_at(b, x, y)->Some_0;
    let flagged = apply_move(b, sq(x, y), m);
    let as_is = move_piece_as_is(b, sq(x, y), m);
    assert forall|i: int| 0 <= i < 64 implies #[trigger] shape(flagged[i]) == shape(as_is[i]) by {}
    lemma_check_ignores_moved_flags(flagged, as_is, p.side);
}

} // verus!
