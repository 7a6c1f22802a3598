use vstd::prelude::*;

use crate::board::{
    cell_at, in_bounds, is_attacked_spec, is_own_king, is_unit_dir, knight_offset, knight_step, pinned_spec, ray_dir,
    ray_step, step, Board,
};
use crate::piece::{Move, Piece, PieceColor, PieceType};
use crate::play::{apply_grid, applied_grid};

verus! {

pub open spec fn sgn(x: int) -> int {
    if x > 0 {
        1
    } else if x < 0 {
        -1
    } else {
        0
    }
}

pub open spec fn abs(x: int) -> int {
    if x < 0 {
        -x
    } else {
        x
    }
}

pub open spec fn cheb(x: int, y: int) -> int {
    if abs(x) >= abs(y) {
        abs(x)
    } else {
        abs(y)
    }
}

/// Moving a piece of `color` to `to` answers the check that the piece on `chk` gives to the
/// king on `k`: a pawn or knight must be captured; against a slider the destination lies on
/// the ray from the king towards the checker, no farther than the checker.
pub open spec fn blocks_check(g: Seq<Option<Piece>>, color: PieceColor, to: (u8, u8), k: (u8, u8), chk: (u8, u8)) -> bool {
    match cell_at(g, chk.0 as int, chk.1 as int) {
        None => true,
        Some(cp) => if (cp.piece_type == PieceType::Pawn || cp.piece_type == PieceType::Knight)
            && cp.color != color {
            to == chk
        } else {
            let a = k.0 as int - chk.0 as int;
            let b = k.1 as int - chk.1 as int;
            let x = k.0 as int - to.0 as int;
            let y = k.1 as int - to.1 as int;
            a * y == b * x && sgn(a) == sgn(x) && sgn(b) == sgn(y) && cheb(x, y) <= cheb(a, b)
        },
    }
}

/// The move captures the checker, or lands where it answers the check.
pub open spec fn resolves_check(g: Seq<Option<Piece>>, color: PieceColor, m: Move, k: (u8, u8), chk: (u8, u8)) -> bool {
    blocks_check(g, color, m.to, k, chk) || (m.capture is Some && (
    m.capture.unwrap().row,
    m.capture.unwrap().col,
    ) == chk)
}

/// The squares strictly between `(fr, fc)` and the square `k` steps along `(dr, dc)` are empty.
pub open spec fn path_clear(g: Seq<Option<Piece>>, fr: int, fc: int, dr: int, dc: int, k: int) -> bool {
    forall|j: int| 1 <= j < k ==> #[trigger] cell_at(g, step(fr, dr, j), step(fc, dc, j)) is None
}

/// `(tr, tc)` lies on a diagonal (or, when `!diagonal`, on a row or column) through `(fr, fc)`,
/// with nothing in between.
pub open spec fn slides_to(g: Seq<Option<Piece>>, fr: int, fc: int, tr: int, tc: int, diagonal: bool) -> bool {
    let a = tr - fr;
    let b = tc - fc;
    &&& !(a == 0 && b == 0)
    &&& if diagonal {
        abs(a) == abs(b)
    } else {
        a == 0 || b == 0
    }
    &&& path_clear(g, fr, fc, sgn(a), sgn(b), cheb(a, b))
}

/// A piece of kind `t` on `(fr, fc)` moves to `(tr, tc)` by its own pattern (pawns aside).
pub open spec fn reaches(g: Seq<Option<Piece>>, t: PieceType, fr: int, fc: int, tr: int, tc: int) -> bool {
    match t {
        PieceType::Knight => (abs(tr - fr) == 1 && abs(tc - fc) == 2) || (abs(tr - fr) == 2 && abs(
            tc - fc,
        ) == 1),
        PieceType::King => cheb(tr - fr, tc - fc) == 1,
        PieceType::Bishop => slides_to(g, fr, fc, tr, tc, true),
        PieceType::Rook => slides_to(g, fr, fc, tr, tc, false),
        PieceType::Queen => slides_to(g, fr, fc, tr, tc, true) || slides_to(g, fr, fc, tr, tc, false),
        PieceType::Pawn => false,
    }
}

pub open spec fn pawn_dir(c: PieceColor) -> int {
    if c == PieceColor::White { -1 } else { 1 }
}

pub open spec fn pawn_start(c: PieceColor) -> int {
    if c == PieceColor::White { 6 } else { 1 }
}

pub open spec fn pawn_last(c: PieceColor) -> int {
    if c == PieceColor::White { 0 } else { 7 }
}

/// A pawn of `color` on `(fr, fc)` makes `m` by its pattern: one step forward, two from its
/// starting rank over an empty square, or one step diagonally forward taking a piece; it
/// promotes exactly when it reaches the last rank.
pub open spec fn pawn_reaches(g: Seq<Option<Piece>>, color: PieceColor, fr: int, fc: int, m: Move) -> bool {
    let d = pawn_dir(color);
    let tr = m.to.0 as int;
    let tc = m.to.1 as int;
    &&& ((tc == fc && m.capture is None && (tr == fr + d || (tr == fr + 2 * d && fr == pawn_start(color)
        && cell_at(g, fr + d, fc) is None))) || (abs(tc - fc) == 1 && tr == fr + d && m.capture is Some))
    &&& (m.promotion is Some <==> tr == pawn_last(color))
    &&& (m.promotion is Some ==> promotion_kind(m.promotion.unwrap()))
}

/// The kinds a pawn may promote to.
pub open spec fn promotion_kind(t: PieceType) -> bool {
    t == PieceType::Queen || t == PieceType::Rook || t == PieceType::Bishop || t == PieceType::Knight
}

/// The move follows the movement pattern of the piece on `(fr, fc)`.
pub open spec fn move_shape(g: Seq<Option<Piece>>, fr: int, fc: int, m: Move) -> bool {
    let p = cell_at(g, fr, fc).unwrap();
    if p.piece_type == PieceType::Pawn {
        pawn_reaches(g, p.color, fr, fc, m)
    } else {
        m.castling || (m.promotion is None && reaches(g, p.piece_type, fr, fc, m.to.0 as int, m.to.1 as int))
    }
}

/// The square `k` steps along `(dr, dc)` lies on the board, the way to it is clear, and it
/// does not hold a piece of the mover's side.
pub open spec fn ray_target_ok(g: Seq<Option<Piece>>, fr: int, fc: int, dr: int, dc: int, k: int) -> bool {
    let r = step(fr, dr, k);
    let c = step(fc, dc, k);
    &&& in_bounds(r, c)
    &&& path_clear(g, fr, fc, dr, dc, k)
    &&& (cell_at(g, r, c) is None || cell_at(g, r, c).unwrap().color != cell_at(g, fr, fc).unwrap().color)
}

/// Past a square that is off the board or occupied, no square of the ray is a target.
proof fn lemma_ray_blocked(g: Seq<Option<Piece>>, fr: int, fc: int, dr: int, dc: int, k: int, j: int)
    requires
        in_bounds(fr, fc),
        is_unit_dir(dr, dc),
        1 <= k < j,
        !in_bounds(step(fr, dr, k), step(fc, dc, k)) || cell_at(g, step(fr, dr, k), step(fc, dc, k)) is Some,
    ensures
        !ray_target_ok(g, fr, fc, dr, dc, j),
{
    if in_bounds(step(fr, dr, k), step(fc, dc, k)) {
        assert(!path_clear(g, fr, fc, dr, dc, j)) by {
            assert(cell_at(g, step(fr, dr, k), step(fc, dc, k)) is Some);
        }
    }
}

/// The square `k` steps along a unit direction is reached by a slide of that direction's family.
proof fn lemma_ray_slides(g: Seq<Option<Piece>>, fr: int, fc: int, dr: int, dc: int, k: int)
    requires
        is_unit_dir(dr, dc),
        k >= 1,
        path_clear(g, fr, fc, dr, dc, k),
    ensures
        slides_to(g, fr, fc, step(fr, dr, k), step(fc, dc, k), dr != 0 && dc != 0),
{
    let a = step(fr, dr, k) - fr;
    let b = step(fc, dc, k) - fc;
    assert(sgn(a) == dr && sgn(b) == dc && cheb(a, b) == k);
}

/// The move along `(dr, dc)` to the square `k` steps away, taking what stands there.
pub open spec fn ray_move(g: Seq<Option<Piece>>, fr: int, fc: int, dr: int, dc: int, k: int) -> Move {
    let r = step(fr, dr, k);
    let c = step(fc, dc, k);
    plain_move((r as u8, c as u8), cell_at(g, r, c))
}

/// Every target along the ray `(dr, dc)` has its move in `ms`.
pub open spec fn ray_covered(g: Seq<Option<Piece>>, fr: int, fc: int, dr: int, dc: int, ms: Seq<Move>) -> bool {
    forall|k: int| 1 <= k && #[trigger] ray_target_ok(g, fr, fc, dr, dc, k) ==> has_move(ms, ray_move(g, fr, fc, dr, dc, k))
}

proof fn lemma_ray_covered_kept(g: Seq<Option<Piece>>, fr: int, fc: int, dr: int, dc: int, old: Seq<Move>, new: Seq<Move>)
    requires
        ray_covered(g, fr, fc, dr, dc, old),
        kept(old, new),
    ensures
        ray_covered(g, fr, fc, dr, dc, new),
{
    assert forall|k: int| 1 <= k && #[trigger] ray_target_ok(g, fr, fc, dr, dc, k) implies has_move(new, ray_move(g, fr, fc, dr, dc, k)) by {
        lemma_kept_has(old, new, ray_move(g, fr, fc, dr, dc, k));
    }
}

/// Whether a slider of kind `t`, with pins `(row, col, back, forward)`, walks ray `i`.
pub open spec fn dir_allowed(t: PieceType, pins: (bool, bool, bool, bool), i: int) -> bool {
    let (row_pinned, col_pinned, back_pinned, forward_pinned) = pins;
    if i < 4 {
        (t == PieceType::Rook || t == PieceType::Queen) && !(back_pinned || forward_pinned) && if i == 0
            || i == 2 {
            !row_pinned
        } else {
            !col_pinned
        }
    } else {
        (t == PieceType::Bishop || t == PieceType::Queen) && !(row_pinned || col_pinned) && if i == 4
            || i == 5 {
            !forward_pinned
        } else {
            !back_pinned
        }
    }
}

proof fn lemma_dir_index(dr: int, dc: int) -> (i: int)
    requires
        is_unit_dir(dr, dc),
    ensures
        0 <= i < 8,
        ray_dir(i) == (dr, dc),
        (i < 4) == (dr == 0 || dc == 0),
{
    if dr == 1 && dc == 0 { 0 }
    else if dr == 0 && dc == 1 { 1 }
    else if dr == -1 && dc == 0 { 2 }
    else if dr == 0 && dc == -1 { 3 }
    else if dr == 1 && dc == 1 { 4 }
    else if dr == -1 && dc == -1 { 5 }
    else if dr == 1 && dc == -1 { 6 }
    else { 7 }
}

proof fn lemma_knight_index(a: int, b: int) -> (i: int)
    requires
        (abs(a) == 1 && abs(b) == 2) || (abs(a) == 2 && abs(b) == 1),
    ensures
        0 <= i < 8,
        knight_offset(i) == (a, b),
{
    if a == 1 && b == 2 { 0 }
    else if a == 2 && b == 1 { 1 }
    else if a == -1 && b == 2 { 2 }
    else if a == -2 && b == 1 { 3 }
    else if a == 1 && b == -2 { 4 }
    else if a == 2 && b == -1 { 5 }
    else if a == -1 && b == -2 { 6 }
    else { 7 }
}

/// A slide to `(tr, tc)` goes `cheb` steps along the unit direction of the signs.
proof fn lemma_slide_dir(g: Seq<Option<Piece>>, fr: int, fc: int, tr: int, tc: int, diag: bool)
    requires
        slides_to(g, fr, fc, tr, tc, diag),
    ensures
        is_unit_dir(sgn(tr - fr), sgn(tc - fc)),
        cheb(tr - fr, tc - fc) >= 1,
        step(fr, sgn(tr - fr), cheb(tr - fr, tc - fc)) == tr,
        step(fc, sgn(tc - fc), cheb(tr - fr, tc - fc)) == tc,
        diag ==> sgn(tr - fr) != 0 && sgn(tc - fc) != 0,
        !diag ==> sgn(tr - fr) == 0 || sgn(tc - fc) == 0,
{
}

/// `new` keeps every entry of `old`, in place.
pub open spec fn kept(old: Seq<Move>, new: Seq<Move>) -> bool {
    old.len() <= new.len() && forall|i: int| 0 <= i < old.len() ==> new[i] == old[i]
}

pub open spec fn has_move(ms: Seq<Move>, m: Move) -> bool {
    exists|i: int| 0 <= i < ms.len() && ms[i] == m
}

proof fn lemma_kept_has(old: Seq<Move>, new: Seq<Move>, m: Move)
    requires
        kept(old, new),
        has_move(old, m),
    ensures
        has_move(new, m),
{
    let i = choose|i: int| 0 <= i < old.len() && old[i] == m;
    assert(new[i] == m);
}

proof fn lemma_kept_trans(a: Seq<Move>, b: Seq<Move>, c: Seq<Move>)
    requires
        kept(a, b),
        kept(b, c),
    ensures
        kept(a, c),
{
    assert forall|i: int| 0 <= i < a.len() implies c[i] == a[i] by {
        assert(c[i] == b[i]);
    }
}

/// The move to `to` with `capture`, neither promoting nor castling.
pub open spec fn plain_move(to: (u8, u8), capture: Option<Piece>) -> Move {
    Move { to, capture, promotion: None, castling: false, rook_to: None }
}

impl Board {
    /// What each move generated for the piece on `(fr, fc)` satisfies, given the squares
    /// `chk` of the pieces that check its king: the move can be applied; under a double
    /// check only the king moves; under a single check any other piece's move answers it;
    /// a king never steps onto an attacked square.
    pub open spec fn good_move(&self, fr: int, fc: int, chk: Seq<(u8, u8)>, m: Move) -> bool {
        let p = self.cell(fr, fc).unwrap();
        &&& self.applicable(fr, fc, m)
        &&& move_shape(self.squares@, fr, fc, m)
        &&& (p.piece_type != PieceType::King ==> chk.len() <= 1)
        &&& (p.piece_type != PieceType::King && chk.len() == 1 ==> resolves_check(
            self.squares@,
            p.color,
            m,
            self.king_pos_spec(p.color),
            chk[0],
        ))
        &&& (m.castling ==> self.castle_ok(fr, fc, m))
    }

    /// Every castling move that `castle_ok` admits for the king on `(fr, fc)` is in `ms`.
    pub open spec fn castles_listed(&self, fr: int, fc: int, ms: Seq<Move>) -> bool {
        forall|m: Move| m.castling && m.capture is None && m.promotion is None && #[trigger] self.castle_ok(
            fr,
            fc,
            m,
        ) ==> has_move(ms, m)
    }

    /// A castling move of the king on `(fr, fc)`: the right is held, the king stands on its
    /// home square, the rook on its own, the squares between them are empty, and neither the
    /// king's square, nor the square it crosses, nor the one it lands on is attacked.
    pub open spec fn castle_ok(&self, fr: int, fc: int, m: Move) -> bool {
        let p = self.cell(fr, fc).unwrap();
        let white = p.color == PieceColor::White;
        let king_side = m.to.1 == 6;
        let g = self.squares@;
        &&& fr == (if white { 7int } else { 0int })
        &&& fc == 4
        &&& (king_side || m.to.1 == 2)
        &&& m.to.0 as int == fr
        &&& m.rook_to == Some((fr as u8, if king_side { 5u8 } else { 3u8 }))
        &&& (if white {
            if king_side { self.wk_castle } else { self.wq_castle }
        } else {
            if king_side { self.bk_castle } else { self.bq_castle }
        })
        &&& self.cell(fr, if king_side { 7int } else { 0int }) == Some(
            Piece { piece_type: PieceType::Rook, color: p.color, row: fr as u8, col: if king_side { 7u8 } else { 0u8 } },
        )
        &&& forall|c: int| (if king_side { 4 < c < 7 } else { 0 < c < 4 }) ==> #[trigger] self.cell(fr, c) is None
        &&& !is_attacked_spec(g, fr, 4, p.color)
        &&& !is_attacked_spec(g, fr, if king_side { 5int } else { 3int }, p.color)
        &&& !is_attacked_spec(g, fr, m.to.1 as int, p.color)
    }

    /// The piece on `(fr, fc)` is pinned along some line.
    pub open spec fn pinned_any(&self, fr: int, fc: int, color: PieceColor) -> bool {
        pinned_spec(self.squares@, fr, fc, 0, 1, color) || pinned_spec(self.squares@, fr, fc, 1, 0, color)
            || pinned_spec(self.squares@, fr, fc, 1, 1, color) || pinned_spec(self.squares@, fr, fc, 1, -1, color)
    }

    /// A candidate move of the piece on `(fr, fc)`: a move of its pattern onto an empty square
    /// or one held by the other side, taking what stands there, or a pawn's capture en passant
    /// of the enemy pawn beside it; a pawn promotes to a queen,
    /// rook, bishop or knight on the last rank; a king steps only onto unattacked squares.
    pub open spec fn candidate(&self, fr: int, fc: int, m: Move) -> bool {
        let g = self.squares@;
        let p = self.cell(fr, fc).unwrap();
        let tr = m.to.0 as int;
        let tc = m.to.1 as int;
        let target = self.cell(tr, tc);
        &&& in_bounds(tr, tc)
        &&& !m.castling
        &&& m.rook_to is None
        &&& (target is Some ==> target.unwrap().color != p.color)
        &&& if p.piece_type == PieceType::Pawn {
            &&& pawn_reaches(g, p.color, fr, fc, m)
            &&& (m.capture == target || (target is None && self.en_passant == Some(m.to)
                && m.capture is Some && m.capture == self.cell(fr, tc) && m.capture.unwrap().piece_type
                == PieceType::Pawn && m.capture.unwrap().color != p.color))
            &&& (m.promotion is Some ==> m.promotion != Some(PieceType::Pawn) && m.promotion != Some(
                PieceType::King,
            ))
        } else {
            &&& m.capture == target
            &&& m.promotion is None
            &&& reaches(g, p.piece_type, fr, fc, tr, tc)
        }
    }

    /// The step `(dr, dc)` from `(fr, fc)` has its move in `ms`, if it is a candidate step:
    /// on the board, onto an empty or enemy square, and for a king an unattacked one; for
    /// other pieces only when no check is in force.
    pub open spec fn leap_covered(&self, fr: int, fc: int, dr: int, dc: int, chk: Seq<(u8, u8)>, ms: Seq<Move>) -> bool {
        let p = self.cell(fr, fc).unwrap();
        let r = fr + dr;
        let c = fc + dc;
        let target = self.cell(r, c);
        (in_bounds(r, c) && !(dr == 0 && dc == 0) && (target is None || target.unwrap().color != p.color)
            && (p.piece_type == PieceType::King || chk.len() == 0)) ==> has_move(
            ms,
            plain_move((r as u8, c as u8), target),
        )
    }

    proof fn lemma_leap_covered_kept(&self, fr: int, fc: int, dr: int, dc: int, chk: Seq<(u8, u8)>, old: Seq<Move>, new: Seq<Move>)
        requires
            self.leap_covered(fr, fc, dr, dc, chk, old),
            kept(old, new),
        ensures
            self.leap_covered(fr, fc, dr, dc, chk, new),
    {
        let r = fr + dr;
        let c = fc + dc;
        if has_move(old, plain_move((r as u8, c as u8), self.cell(r, c))) {
            lemma_kept_has(old, new, plain_move((r as u8, c as u8), self.cell(r, c)));
        }
    }

    pub open spec fn all_good(&self, fr: int, fc: int, chk: Seq<(u8, u8)>, ms: Seq<Move>) -> bool {
        forall|i: int| 0 <= i < ms.len() ==> self.good_move(fr, fc, chk, #[trigger] ms[i])
    }

    /// The king square that the move generator uses for `color`, when it lies on the board.
    fn king_square(&self, color: PieceColor) -> (r: (u8, u8))
        ensures
            r == self.king_pos_spec(color),
    {
        match color {
            PieceColor::White => self.white_king_pos,
            PieceColor::Black => self.black_king_pos,
        }
    }

    /// Adds a move of the piece on `(fr, fc)` to `(r, c)`, unless `(r, c)` is off the board or
    /// holds a piece of its own side, or a check goes unanswered. Returns whether `(r, c)` was
    /// an empty square on the board, that is whether a ray may go on past it.
    fn try_add(
        &self,
        fr: usize,
        fc: usize,
        r: i32,
        c: i32,
        chk: &Vec<(u8, u8)>,
        res: &mut Vec<Move>,
    ) -> (open: bool)
        requires
            self.valid(),
            in_bounds(fr as int, fc as int),
            self.cell(fr as int, fc as int) is Some,
            self.cell(fr as int, fc as int).unwrap().piece_type != PieceType::Pawn,
            chk@.len() <= 1 || self.cell(fr as int, fc as int).unwrap().piece_type == PieceType::King,
            self.all_good(fr as int, fc as int, chk@, old(res)@),
            -16 <= r <= 16,
            -16 <= c <= 16,
            in_bounds(r as int, c as int) && (r != fr || c != fc) ==> reaches(
                self.squares@,
                self.cell(fr as int, fc as int).unwrap().piece_type,
                fr as int,
                fc as int,
                r as int,
                c as int,
            ),
        ensures
            self.all_good(fr as int, fc as int, chk@, final(res)@),
            open ==> in_bounds(r as int, c as int) && self.cell(r as int, c as int) is None,
            !open ==> !in_bounds(r as int, c as int) || (r == fr && c == fc) || self.cell(r as int, c as int) is Some,
            kept(old(res)@, final(res)@),
            ({
                let p = self.cell(fr as int, fc as int).unwrap();
                let target = self.cell(r as int, c as int);
                (in_bounds(r as int, c as int) && (r != fr || c != fc) && (target is None
                    || target.unwrap().color != p.color) && (p.piece_type == PieceType::King
                    || chk@.len() == 0)) ==> has_move(final(res)@, plain_move((r as u8, c as u8), target))
            }),
    {
        if r < 0 || r >= 8 || c < 0 || c >= 8 || (r as usize == fr && c as usize == fc) {
            return false;
        }
        let piece = self.piece_at(fr, fc).unwrap();
        let to = (r as u8, c as u8);
        let target = self.piece_at(r as usize, c as usize);
        let is_king = match piece.piece_type {
            PieceType::King => true,
            _ => false,
        };
        let allowed = if is_king {
            true
        } else if chk.len() == 1 {
            let k = self.king_square(piece.color);
            let capture_square = match target {
                Some(t) => t.row == chk[0].0 && t.col == chk[0].1,
                None => false,
            };
            capture_square || (k.0 < 8 && k.1 < 8 && chk[0].0 < 8 && chk[0].1 < 8
                && piece.solves_check(self, to, k, &chk[0]))
        } else {
            true
        };
        match target {
            None => {
                if allowed {
                    let m = Move::new(to, None, None);
                    res.push(m);
                    assert(res@.last() == m);
                    assert(res@[res@.len() - 1] == plain_move(to, target));
                }
                true
            },
            Some(t) => {
                if t.color != piece.color && allowed {
                    let m = Move::new(to, Some(t), None);
                    res.push(m);
                    assert(res@.last() == m);
                    assert(res@[res@.len() - 1] == plain_move(to, target));
                }
                false
            },
        }
    }
}

impl Board {
    /// Adds the moves of the piece on `(fr, fc)` along the ray `(dr, dc)`, up to and including
    /// the first occupied square.
    fn slide(&self, fr: usize, fc: usize, dr: i32, dc: i32, chk: &Vec<(u8, u8)>, res: &mut Vec<Move>)
        requires
            self.valid(),
            in_bounds(fr as int, fc as int),
            self.cell(fr as int, fc as int) is Some,
            self.cell(fr as int, fc as int).unwrap().piece_type != PieceType::Pawn,
            chk@.len() <= 1 || self.cell(fr as int, fc as int).unwrap().piece_type == PieceType::King,
            self.all_good(fr as int, fc as int, chk@, old(res)@),
            is_unit_dir(dr as int, dc as int),
            dr != 0 && dc != 0 ==> self.cell(fr as int, fc as int).unwrap().piece_type == PieceType::Bishop
                || self.cell(fr as int, fc as int).unwrap().piece_type == PieceType::Queen,
            dr == 0 || dc == 0 ==> self.cell(fr as int, fc as int).unwrap().piece_type == PieceType::Rook
                || self.cell(fr as int, fc as int).unwrap().piece_type == PieceType::Queen,
        ensures
            self.all_good(fr as int, fc as int, chk@, final(res)@),
            kept(old(res)@, final(res)@),
            chk@.len() == 0 ==> ray_covered(self.squares@, fr as int, fc as int, dr as int, dc as int, final(res)@),
    {
        let ghost g = self.squares@;
        let ghost res0 = res@;
        let mut k: i32 = 1;
        let mut r: i32 = fr as i32 + dr;
        let mut c: i32 = fc as i32 + dc;
        while k <= 8
            invariant
                self.valid(),
                in_bounds(fr as int, fc as int),
                self.cell(fr as int, fc as int) is Some,
                self.cell(fr as int, fc as int).unwrap().piece_type != PieceType::Pawn,
                chk@.len() <= 1 || self.cell(fr as int, fc as int).unwrap().piece_type
                    == PieceType::King,
                self.all_good(fr as int, fc as int, chk@, res@),
                g == self.squares@,
                is_unit_dir(dr as int, dc as int),
                dr != 0 && dc != 0 ==> self.cell(fr as int, fc as int).unwrap().piece_type
                    == PieceType::Bishop || self.cell(fr as int, fc as int).unwrap().piece_type
                    == PieceType::Queen,
                dr == 0 || dc == 0 ==> self.cell(fr as int, fc as int).unwrap().piece_type
                    == PieceType::Rook || self.cell(fr as int, fc as int).unwrap().piece_type
                    == PieceType::Queen,
                1 <= k <= 9,
                r == step(fr as int, dr as int, k as int),
                c == step(fc as int, dc as int, k as int),
                path_clear(g, fr as int, fc as int, dr as int, dc as int, k as int),
                kept(res0, res@),
                res0 == old(res)@,
                chk@.len() == 0 ==> forall|j: int| 1 <= j < k && #[trigger] ray_target_ok(g, fr as int, fc as int, dr as int, dc as int, j)
                    ==> has_move(res@, plain_move((step(fr as int, dr as int, j) as u8, step(fc as int, dc as int, j) as u8), cell_at(g, step(fr as int, dr as int, j), step(fc as int, dc as int, j)))),
            decreases 9 - k,
        {
            proof {
                lemma_ray_slides(g, fr as int, fc as int, dr as int, dc as int, k as int);
            }
            let ghost before = res@;
            let open = self.try_add(fr, fc, r, c, chk, res);
            proof {
                lemma_kept_trans(res0, before, res@);
                if chk@.len() == 0 {
                    assert forall|j: int| 1 <= j < k + 1 && #[trigger] ray_target_ok(g, fr as int, fc as int, dr as int, dc as int, j)
                        implies has_move(res@, plain_move((step(fr as int, dr as int, j) as u8, step(fc as int, dc as int, j) as u8), cell_at(g, step(fr as int, dr as int, j), step(fc as int, dc as int, j)))) by {
                        if j < k {
                            lemma_kept_has(before, res@, plain_move((step(fr as int, dr as int, j) as u8, step(fc as int, dc as int, j) as u8), cell_at(g, step(fr as int, dr as int, j), step(fc as int, dc as int, j))));
                        }
                    }
                }
            }
            if !open {
                proof {
                    if chk@.len() == 0 {
                        assert forall|j: int| 1 <= j && #[trigger] ray_target_ok(g, fr as int, fc as int, dr as int, dc as int, j)
                            implies has_move(res@, plain_move((step(fr as int, dr as int, j) as u8, step(fc as int, dc as int, j) as u8), cell_at(g, step(fr as int, dr as int, j), step(fc as int, dc as int, j)))) by {
                            if j > k {
                                lemma_ray_blocked(g, fr as int, fc as int, dr as int, dc as int, k as int, j);
                            }
                        }
                    }
                }
                assert(kept(res0, res@));
                return;
            }
            assert(path_clear(g, fr as int, fc as int, dr as int, dc as int, k + 1)) by {
                assert forall|j: int| 1 <= j < k + 1 implies #[trigger] cell_at(
                    g,
                    step(fr as int, dr as int, j),
                    step(fc as int, dc as int, j),
                ) is None by {
                    if j == k {
                        assert(self.cell(r as int, c as int) is None);
                    }
                }
            }
            r = r + dr;
            c = c + dc;
            k = k + 1;
        }
    }

    /// Adds the pawn move of the piece on `(fr, fc)` to `to` with `capture`, as the four
    /// promotions when `promote`, provided it answers a check in force.
    fn add_pawn_move(
        &self,
        fr: usize,
        fc: usize,
        to: (u8, u8),
        capture: Option<Piece>,
        promote: bool,
        chk: &Vec<(u8, u8)>,
        res: &mut Vec<Move>,
    )
        requires
            self.valid(),
            self.cell(fr as int, fc as int) is Some,
            self.cell(fr as int, fc as int).unwrap().piece_type == PieceType::Pawn,
            chk@.len() <= 1,
            self.applicable(fr as int, fc as int, plain_move(to, capture)),
            pawn_reaches(self.squares@, self.cell(fr as int, fc as int).unwrap().color, fr as int, fc as int, Move { to, capture, promotion: if promote { Some(PieceType::Queen) } else { None }, castling: false, rook_to: None }),
            self.all_good(fr as int, fc as int, chk@, old(res)@),
        ensures
            self.all_good(fr as int, fc as int, chk@, final(res)@),
            kept(old(res)@, final(res)@),
            chk@.len() == 0 ==> forall|m: Move| m.to == to && m.capture == capture && !m.castling
                && m.rook_to is None && (if promote {
                m.promotion is Some && m.promotion != Some(PieceType::Pawn) && m.promotion != Some(
                    PieceType::King,
                )
            } else {
                m.promotion is None
            }) ==> #[trigger] has_move(final(res)@, m),
    {
        let piece = self.piece_at(fr, fc).unwrap();
        if chk.len() == 1 {
            let k = self.king_square(piece.color);
            let capture_square = match capture {
                Some(t) => t.row == chk[0].0 && t.col == chk[0].1,
                None => false,
            };
            let solved = capture_square || (k.0 < 8 && k.1 < 8 && chk[0].0 < 8 && chk[0].1 < 8
                && piece.solves_check(self, to, k, &chk[0]));
            if !solved {
                return;
            }
        }
        if promote {
            let ghost before = res@;
            self.push_promotion(fr, fc, to, capture, PieceType::Queen, chk, res);
            self.push_promotion(fr, fc, to, capture, PieceType::Rook, chk, res);
            self.push_promotion(fr, fc, to, capture, PieceType::Bishop, chk, res);
            self.push_promotion(fr, fc, to, capture, PieceType::Knight, chk, res);
            proof {
                let n = before.len() as int;
                assert(res@[n] == Move { to, capture, promotion: Some(PieceType::Queen), castling: false, rook_to: None });
                assert(res@[n + 1] == Move { to, capture, promotion: Some(PieceType::Rook), castling: false, rook_to: None });
                assert(res@[n + 2] == Move { to, capture, promotion: Some(PieceType::Bishop), castling: false, rook_to: None });
                assert(res@[n + 3] == Move { to, capture, promotion: Some(PieceType::Knight), castling: false, rook_to: None });
                assert forall|j: int| 0 <= j < n implies res@[j] == before[j] by {}
                if chk@.len() == 0 {
                    assert forall|m: Move| m.to == to && m.capture == capture && !m.castling
                        && m.rook_to is None && m.promotion is Some && m.promotion != Some(PieceType::Pawn)
                        && m.promotion != Some(PieceType::King) implies #[trigger] has_move(res@, m) by {
                        let k = m.promotion.unwrap();
                        if k == PieceType::Queen {
                            assert(res@[n] == m);
                        } else if k == PieceType::Rook {
                            assert(res@[n + 1] == m);
                        } else if k == PieceType::Bishop {
                            assert(res@[n + 2] == m);
                        } else {
                            assert(res@[n + 3] == m);
                        }
                    }
                }
            }
        } else {
            let m = Move::new(to, capture, None);
            let ghost before = res@;
            res.push(m);
            assert(res@.last() == m);
            proof {
                assert forall|j: int| 0 <= j < before.len() implies res@[j] == before[j] by {}
                assert forall|m2: Move| m2.to == to && m2.capture == capture && !m2.castling
                    && m2.rook_to is None && m2.promotion is None implies #[trigger] has_move(res@, m2) by {
                    assert(res@[before.len() as int] == m2);
                }
            }
        }
    }

    /// Appends the promotion of the pawn on `(fr, fc)` to `t` on `to`.
    fn push_promotion(
        &self,
        fr: usize,
        fc: usize,
        to: (u8, u8),
        capture: Option<Piece>,
        t: PieceType,
        chk: &Vec<(u8, u8)>,
        res: &mut Vec<Move>,
    )
        requires
            self.valid(),
            self.cell(fr as int, fc as int) is Some,
            self.cell(fr as int, fc as int).unwrap().piece_type == PieceType::Pawn,
            chk@.len() <= 1,
            self.applicable(fr as int, fc as int, plain_move(to, capture)),
            chk@.len() == 1 ==> resolves_check(
                self.squares@,
                self.cell(fr as int, fc as int).unwrap().color,
                plain_move(to, capture),
                self.king_pos_spec(self.cell(fr as int, fc as int).unwrap().color),
                chk@[0],
            ),
            pawn_reaches(self.squares@, self.cell(fr as int, fc as int).unwrap().color, fr as int, fc as int, Move { to, capture, promotion: Some(PieceType::Queen), castling: false, rook_to: None }),
            promotion_kind(t),
            self.all_good(fr as int, fc as int, chk@, old(res)@),
        ensures
            self.all_good(fr as int, fc as int, chk@, final(res)@),
            final(res)@ == old(res)@.push(Move { to, capture, promotion: Some(t), castling: false, rook_to: None }),
    {
        let m = Move::new(to, capture, Some(t));
        res.push(m);
        assert(res@.last() == m);
    }

    /// The moves of the pawn on `(fr, fc)`, given its pins.
    fn pawn_moves(
        &self,
        fr: usize,
        fc: usize,
        pins: (bool, bool, bool, bool),
        chk: &Vec<(u8, u8)>,
        res: &mut Vec<Move>,
    )
        requires
            self.valid(),
            in_bounds(fr as int, fc as int),
            self.cell(fr as int, fc as int) is Some,
            self.cell(fr as int, fc as int).unwrap().piece_type == PieceType::Pawn,
            chk@.len() <= 1,
            self.all_good(fr as int, fc as int, chk@, old(res)@),
        ensures
            self.all_good(fr as int, fc as int, chk@, final(res)@),
            kept(old(res)@, final(res)@),
            chk@.len() == 0 && pins == (false, false, false, false) ==> forall|m: Move| #[trigger]
                self.candidate(fr as int, fc as int, m) ==> has_move(final(res)@, m),
    {
        let ghost res0 = res@;
        let piece = self.piece_at(fr, fc).unwrap();
        let (row_pinned, col_pinned, back_pinned, forward_pinned) = pins;
        let white = match piece.color {
            PieceColor::White => true,
            PieceColor::Black => false,
        };
        let delta: i32 = if white { -1 } else { 1 };
        let start_row: i32 = if white { 6 } else { 1 };
        let promotion_row: i32 = if white { 0 } else { 7 };
        let r1: i32 = fr as i32 + delta;
        let ghost free = chk@.len() == 0 && pins == (false, false, false, false);
        if r1 < 0 || r1 >= 8 {
            return;
        }
        if !(row_pinned || back_pinned || forward_pinned) {
            if self.piece_at(r1 as usize, fc).is_none() {
                self.add_pawn_move(fr, fc, (r1 as u8, fc as u8), None, r1 == promotion_row, chk, res);
                let r2: i32 = r1 + delta;
                if fr as i32 == start_row && 0 <= r2 && r2 < 8 && self.piece_at(r2 as usize, fc).is_none() {
                    let ghost mid = res@;
                    self.add_pawn_move(fr, fc, (r2 as u8, fc as u8), None, r2 == promotion_row, chk, res);
                    proof {
                        lemma_kept_trans(res0, mid, res@);
                        if free {
                            assert forall|m: Move| #[trigger] self.candidate(fr as int, fc as int, m)
                                && m.to.1 as int == fc && m.to.0 as int == r1 implies has_move(res@, m) by {
                                assert(has_move(mid, m));
                                lemma_kept_has(mid, res@, m);
                            }
                        }
                    }
                }
            }
        }
        let ghost after_push = res@;
        proof {
            assert(kept(res0, after_push));
        }
        if row_pinned || col_pinned || (back_pinned && forward_pinned) {
            return;
        }
        let mut j: usize = 0;
        while j < 2
            invariant
                self.valid(),
                in_bounds(fr as int, fc as int),
                self.cell(fr as int, fc as int) == Some(piece),
                piece.piece_type == PieceType::Pawn,
                chk@.len() <= 1,
                self.all_good(fr as int, fc as int, chk@, res@),
                0 <= r1 < 8,
                delta == pawn_dir(piece.color),
                promotion_row == pawn_last(piece.color),
                start_row == pawn_start(piece.color),
                r1 == fr + delta,
                j <= 2,
                kept(res0, after_push),
                kept(after_push, res@),
                res0 == old(res)@,
                free == (chk@.len() == 0 && pins == (false, false, false, false)),
                pins == (row_pinned, col_pinned, back_pinned, forward_pinned),
                free ==> forall|m: Move| #[trigger] self.candidate(fr as int, fc as int, m) && m.to.1 as int
                    == fc ==> has_move(after_push, m),
                free ==> forall|m: Move| #[trigger] self.candidate(fr as int, fc as int, m) && m.to.1 as int
                    != fc && (m.to.1 as int) < fc + 2 * j - 1 ==> has_move(res@, m),
            decreases 2 - j,
        {
            let dc: i32 = if j == 0 { -1 } else { 1 };
            let ghost before = res@;
            j = j + 1;
            let skip = (back_pinned && dc != delta) || (forward_pinned && dc == delta);
            let c: i32 = fc as i32 + dc;
            if !skip && 0 <= c && c < 8 {
                let to = (r1 as u8, c as u8);
                match self.piece_at(r1 as usize, c as usize) {
                    Some(t) => {
                        if t.color != piece.color {
                            self.add_pawn_move(fr, fc, to, Some(t), r1 == promotion_row, chk, res);
                        }
                    },
                    None => {
                        let ep = match self.en_passant {
                            Some(e) => e.0 as i32 == r1 && e.1 as i32 == c,
                            None => false,
                        };
                        if ep {
                            match self.piece_at(fr, c as usize) {
                                Some(t) => {
                                    if t.color != piece.color && t.piece_type == PieceType::Pawn {
                                        self.add_pawn_move(fr, fc, to, Some(t), r1 == promotion_row, chk, res);
                                    }
                                },
                                None => {},
                            }
                        }
                    },
                }
            }
            proof {
                lemma_kept_trans(after_push, before, res@);
                if free {
                    assert forall|m: Move| #[trigger] self.candidate(fr as int, fc as int, m) && m.to.1 as int
                        != fc && (m.to.1 as int) < fc + 2 * j - 1 implies has_move(res@, m) by {
                        if (m.to.1 as int) < fc + 2 * (j - 1) - 1 {
                            lemma_kept_has(before, res@, m);
                        }
                    }
                }
            }
        }
        proof {
            if free {
                assert forall|m: Move| #[trigger] self.candidate(fr as int, fc as int, m) implies has_move(res@, m) by {
                    if m.to.1 as int == fc {
                        lemma_kept_has(after_push, res@, m);
                    }
                }
            }
            lemma_kept_trans(res0, after_push, res@);
        }
    }

    /// The castling moves of the king on `(fr, fc)`.
    fn castle_moves(&self, fr: usize, fc: usize, res: &mut Vec<Move>, chk: &Vec<(u8, u8)>)
        requires
            self.valid(),
            in_bounds(fr as int, fc as int),
            self.cell(fr as int, fc as int) is Some,
            self.cell(fr as int, fc as int).unwrap().piece_type == PieceType::King,
            self.all_good(fr as int, fc as int, chk@, old(res)@),
        ensures
            self.all_good(fr as int, fc as int, chk@, final(res)@),
            kept(old(res)@, final(res)@),
            self.castles_listed(fr as int, fc as int, final(res)@),
    {
        let ghost res0 = res@;
        let piece = self.piece_at(fr, fc).unwrap();
        let white = match piece.color {
            PieceColor::White => true,
            PieceColor::Black => false,
        };
        let home: usize = if white { 7 } else { 0 };
        if fr != home || fc != 4 || self.is_attacked(home, 4, &piece.color) {
            return;
        }
        let king_side = if white { self.wk_castle } else { self.bk_castle };
        let queen_side = if white { self.wq_castle } else { self.bq_castle };
        let ks = Move::castle((home as u8, 6), (home as u8, 5));
        let qs = Move::castle((home as u8, 2), (home as u8, 3));
        proof {
            assert(crate::board::placed_at(self.squares@[home * 8 + 7], home * 8 + 7));
            assert(crate::board::placed_at(self.squares@[home * 8 + 0], home * 8 + 0));
        }
        let ks_ok = king_side && self.own_rook_at(home, 7, piece.color) && self.piece_at(home, 5).is_none()
            && self.piece_at(home, 6).is_none() && !self.is_attacked(home, 5, &piece.color)
            && !self.is_attacked(home, 6, &piece.color);
        let qs_ok = queen_side && self.own_rook_at(home, 0, piece.color) && self.piece_at(home, 1).is_none()
            && self.piece_at(home, 2).is_none() && self.piece_at(home, 3).is_none()
            && !self.is_attacked(home, 2, &piece.color) && !self.is_attacked(home, 3, &piece.color);
        proof {
            assert(ks_ok == self.castle_ok(fr as int, fc as int, ks)) by {
                if self.castle_ok(fr as int, fc as int, ks) {
                    assert(self.cell(fr as int, 5) is None);
                    assert(self.cell(fr as int, 6) is None);
                }
            }
            assert(qs_ok == self.castle_ok(fr as int, fc as int, qs)) by {
                if self.castle_ok(fr as int, fc as int, qs) {
                    assert(self.cell(fr as int, 1) is None);
                    assert(self.cell(fr as int, 2) is None);
                    assert(self.cell(fr as int, 3) is None);
                }
            }
        }
        if ks_ok {
            res.push(ks);
            assert(res@.last() == ks);
        }
        let ghost mid = res@;
        if qs_ok {
            res.push(qs);
            assert(res@.last() == qs);
        }
        proof {
            assert(kept(res0, mid));
            assert(kept(mid, res@));
            lemma_kept_trans(res0, mid, res@);
            assert forall|m: Move| m.castling && m.capture is None && m.promotion is None
                && #[trigger] self.castle_ok(fr as int, fc as int, m) implies has_move(res@, m) by {
                if m.to.1 == 6 {
                    assert(m == ks);
                    assert(mid[mid.len() - 1] == ks);
                    lemma_kept_has(mid, res@, m);
                } else {
                    assert(m == qs);
                    assert(res@[res@.len() - 1] == qs);
                }
            }
        }
    }

    /// Whether `(row, col)` holds a rook of `color`.
    fn own_rook_at(&self, row: usize, col: usize, color: PieceColor) -> (r: bool)
        requires
            self.wf(),
            row < 8,
            col < 8,
        ensures
            r == (self.cell(row as int, col as int) is Some && self.cell(row as int, col as int).unwrap().color == color
                && self.cell(row as int, col as int).unwrap().piece_type == PieceType::Rook),
    {
        match self.piece_at(row, col) {
            Some(p) => p.color == color && p.piece_type == PieceType::Rook,
            None => false,
        }
    }
}

impl Piece {
    /// Every move of this piece's pattern onto an empty or enemy square, with its castling
    /// moves, before the safety of its king is looked at.
    fn pseudo_moves(&self, board: &Board) -> (res: Vec<Move>)
        requires
            board.valid(),
            in_bounds(self.row as int, self.col as int),
            board.cell(self.row as int, self.col as int) == Some(*self),
        ensures
            board.all_good(self.row as int, self.col as int, Seq::<(u8, u8)>::empty(), res@),
            forall|m: Move| #[trigger] board.candidate(self.row as int, self.col as int, m) ==> has_move(res@, m),
            self.piece_type == PieceType::King ==> board.castles_listed(self.row as int, self.col as int, res@),
    {
        let mut res: Vec<Move> = Vec::new();
        let no_checks: Vec<(u8, u8)> = Vec::new();
        let checking_pieces = &no_checks;
        let fr = self.row as usize;
        let fc = self.col as usize;
        let ghost g = board.squares@;
        let row_pinned = false;
        let col_pinned = false;
        let back_pinned = false;
        let forward_pinned = false;
        let diag_pinned = back_pinned || forward_pinned;
        let pins = (row_pinned, col_pinned, back_pinned, forward_pinned);
        match self.piece_type {
            PieceType::Pawn => {
                board.pawn_moves(fr, fc, pins, checking_pieces, &mut res);
            },
            PieceType::Knight => {
                if !(row_pinned || col_pinned || diag_pinned) {
                    let mut i: usize = 0;
                    while i < 8
                        invariant
                            board.valid(),
                            g == board.squares@,
                            in_bounds(fr as int, fc as int),
                            board.cell(fr as int, fc as int) == Some(*self),
                            self.piece_type == PieceType::Knight,
                            checking_pieces@.len() <= 1,
                            board.all_good(fr as int, fc as int, checking_pieces@, res@),
                            i <= 8,
                            forall|j: int| 0 <= j < i ==> #[trigger] board.leap_covered(
                                fr as int,
                                fc as int,
                                knight_offset(j).0,
                                knight_offset(j).1,
                                checking_pieces@,
                                res@,
                            ),
                        decreases 8 - i,
                    {
                        let (dr, dc) = knight_step(i);
                        let ghost before = res@;
                        board.try_add(fr, fc, fr as i32 + dr, fc as i32 + dc, checking_pieces, &mut res);
                        proof {
                            assert forall|j: int| 0 <= j < i + 1 implies #[trigger] board.leap_covered(
                                fr as int,
                                fc as int,
                                knight_offset(j).0,
                                knight_offset(j).1,
                                checking_pieces@,
                                res@,
                            ) by {
                                if j < i {
                                    board.lemma_leap_covered_kept(fr as int, fc as int, knight_offset(j).0, knight_offset(j).1, checking_pieces@, before, res@);
                                }
                            }
                        }
                        i = i + 1;
                    }
                    proof {
                        if checking_pieces@.len() == 0 {
                            assert forall|m: Move| #[trigger] board.candidate(fr as int, fc as int, m) implies has_move(res@, m) by {
                                let a = m.to.0 as int - fr;
                                let b = m.to.1 as int - fc;
                                let j = lemma_knight_index(a, b);
                                assert(board.leap_covered(fr as int, fc as int, knight_offset(j).0, knight_offset(j).1, checking_pieces@, res@));
                            }
                        }
                    }
                }
            },
            PieceType::King => {
                let mut i: usize = 0;
                while i < 8
                    invariant
                        board.valid(),
                        g == board.squares@,
                        in_bounds(fr as int, fc as int),
                        board.cell(fr as int, fc as int) == Some(*self),
                        self.piece_type == PieceType::King,
                        board.all_good(fr as int, fc as int, checking_pieces@, res@),
                        i <= 8,
                        forall|j: int| 0 <= j < i ==> #[trigger] board.leap_covered(
                            fr as int,
                            fc as int,
                            ray_dir(j).0,
                            ray_dir(j).1,
                            checking_pieces@,
                            res@,
                        ),
                    decreases 8 - i,
                {
                    let (dr, dc) = ray_step(i);
                    let ghost before = res@;
                    board.try_add(fr, fc, fr as i32 + dr, fc as i32 + dc, checking_pieces, &mut res);
                    proof {
                        assert forall|j: int| 0 <= j < i + 1 implies #[trigger] board.leap_covered(
                            fr as int,
                            fc as int,
                            ray_dir(j).0,
                            ray_dir(j).1,
                            checking_pieces@,
                            res@,
                        ) by {
                            if j < i {
                                board.lemma_leap_covered_kept(fr as int, fc as int, ray_dir(j).0, ray_dir(j).1, checking_pieces@, before, res@);
                            }
                        }
                    }
                    i = i + 1;
                }
                let ghost before = res@;
                board.castle_moves(fr, fc, &mut res, checking_pieces);
                proof {
                    assert forall|m: Move| #[trigger] board.candidate(fr as int, fc as int, m) implies has_move(res@, m) by {
                        let a = m.to.0 as int - fr;
                        let b = m.to.1 as int - fc;
                        let j = lemma_dir_index(a, b);
                        assert(board.leap_covered(fr as int, fc as int, ray_dir(j).0, ray_dir(j).1, checking_pieces@, before));
                        lemma_kept_has(before, res@, m);
                    }
                }
            },
            _ => {
                let mut i: usize = 0;
                while i < 8
                    invariant
                        board.valid(),
                        g == board.squares@,
                        in_bounds(fr as int, fc as int),
                        board.cell(fr as int, fc as int) == Some(*self),
                        self.piece_type == PieceType::Bishop || self.piece_type == PieceType::Rook
                            || self.piece_type == PieceType::Queen,
                        checking_pieces@.len() <= 1,
                        board.all_good(fr as int, fc as int, checking_pieces@, res@),
                        i <= 8,
                        pins == (row_pinned, col_pinned, back_pinned, forward_pinned),
                        diag_pinned == (back_pinned || forward_pinned),
                        forall|j: int| 0 <= j < i && dir_allowed(self.piece_type, pins, j) && checking_pieces@.len() == 0
                            ==> #[trigger] ray_covered(g, fr as int, fc as int, ray_dir(j).0, ray_dir(j).1, res@),
                    decreases 8 - i,
                {
                    let (dr, dc) = ray_step(i);
                    let orthogonal = i < 4;
                    let kind_fits = match self.piece_type {
                        PieceType::Queen => true,
                        PieceType::Rook => orthogonal,
                        PieceType::Bishop => !orthogonal,
                        _ => false,
                    };
                    let allowed = kind_fits && if orthogonal {
                        !diag_pinned && if i == 0 || i == 2 { !row_pinned } else { !col_pinned }
                    } else {
                        !(row_pinned || col_pinned) && if i == 4 || i == 5 { !forward_pinned } else { !back_pinned }
                    };
                    assert(allowed == dir_allowed(self.piece_type, pins, i as int));
                    if allowed {
                        let ghost before = res@;
                        board.slide(fr, fc, dr, dc, checking_pieces, &mut res);
                        proof {
                            assert forall|j: int| 0 <= j < i && dir_allowed(self.piece_type, pins, j) && checking_pieces@.len() == 0
                                implies #[trigger] ray_covered(g, fr as int, fc as int, ray_dir(j).0, ray_dir(j).1, res@) by {
                                lemma_ray_covered_kept(g, fr as int, fc as int, ray_dir(j).0, ray_dir(j).1, before, res@);
                            }
                        }
                    }
                    i = i + 1;
                }
                proof {
                    if checking_pieces@.len() == 0 {
                        assert forall|m: Move| #[trigger] board.candidate(fr as int, fc as int, m) implies has_move(res@, m) by {
                            let tr = m.to.0 as int;
                            let tc = m.to.1 as int;
                            let diag = slides_to(g, fr as int, fc as int, tr, tc, true) && self.piece_type != PieceType::Rook;
                            lemma_slide_dir(g, fr as int, fc as int, tr, tc, diag);
                            let a = tr - fr;
                            let b = tc - fc;
                            let j = lemma_dir_index(sgn(a), sgn(b));
                            assert(dir_allowed(self.piece_type, pins, j));
                            assert(ray_covered(g, fr as int, fc as int, ray_dir(j).0, ray_dir(j).1, res@));
                            assert(ray_target_ok(g, fr as int, fc as int, sgn(a), sgn(b), cheb(a, b)));
                        }
                    }
                }
            },
        }
        res
    }
}

impl Piece {
    /// Whether this piece, moving to `move_to`, answers the check that the piece on
    /// `checking_piece_position` gives to its king on `king_position`.
    pub fn solves_check(
        &self,
        board: &Board,
        move_to: (u8, u8),
        king_position: (u8, u8),
        checking_piece_position: &(u8, u8),
    ) -> (r: bool)
        requires
            board.wf(),
            in_bounds(checking_piece_position.0 as int, checking_piece_position.1 as int),
            in_bounds(move_to.0 as int, move_to.1 as int),
            king_position.0 < 8,
            king_position.1 < 8,
        ensures
            r == blocks_check(board.squares@, self.color, move_to, king_position, *checking_piece_position),
    {
        let chk = *checking_piece_position;
        let to = move_to;
        match board.piece_at(chk.0 as usize, chk.1 as usize) {
            None => true,
            Some(cp) => {
                if (cp.piece_type == PieceType::Pawn || cp.piece_type == PieceType::Knight)
                    && cp.color != self.color {
                    return to.0 == chk.0 && to.1 == chk.1;
                }
                let a: i32 = king_position.0 as i32 - chk.0 as i32;
                let b: i32 = king_position.1 as i32 - chk.1 as i32;
                let x: i32 = king_position.0 as i32 - to.0 as i32;
                let y: i32 = king_position.1 as i32 - to.1 as i32;
                assert(-8 <= a <= 8 && -8 <= y <= 8 ==> -64 <= a * y <= 64) by (nonlinear_arith);
                assert(-8 <= b <= 8 && -8 <= x <= 8 ==> -64 <= b * x <= 64) by (nonlinear_arith);
                let collinear = a * y == b * x;
                let same_dir = sign(a) == sign(x) && sign(b) == sign(y);
                collinear && same_dir && cheb_exec(x, y) <= cheb_exec(a, b)
            },
        }
    }
}

impl Piece {
    /// The legal moves of this piece, which stands on `board` and belongs to the side to move:
    /// each move of its pattern (castling and en passant included) after which no king of its
    /// side stands attacked. Each legal move is listed exactly once, a promotion with all four
    /// kinds, and every listed move can be played.
    pub fn generate_moves(&self, board: &Board) -> (res: Vec<Move>)
        requires
            board.valid(),
            in_bounds(self.row as int, self.col as int),
            board.cell(self.row as int, self.col as int) == Some(*self),
            self.color == board.turn,
        ensures
            forall|i: int| 0 <= i < res@.len() ==> board.applicable(self.row as int, self.col as int, #[trigger] res@[i])
                && board.legal_move(self.row as int, self.col as int, res@[i]),
            forall|m: Move| #[trigger] board.legal_move(self.row as int, self.col as int, m) ==> has_move(res@, m),
            res@.no_duplicates(),
            forall|m: Move, t: PieceType| has_move(res@, m) && m.promotion is Some && promotion_kind(t)
                ==> #[trigger] has_move(res@, Move { promotion: Some(t), ..m }),
    {
        let fr = self.row as usize;
        let fc = self.col as usize;
        let pseudo = self.pseudo_moves(board);
        let mut res: Vec<Move> = Vec::new();
        let mut i: usize = 0;
        while i < pseudo.len()
            invariant
                board.valid(),
                in_bounds(fr as int, fc as int),
                fr == self.row,
                fc == self.col,
                board.cell(fr as int, fc as int) == Some(*self),
                i <= pseudo@.len(),
                board.all_good(fr as int, fc as int, Seq::<(u8, u8)>::empty(), pseudo@),
                forall|k: int| 0 <= k < res@.len() ==> board.applicable(fr as int, fc as int, #[trigger] res@[k])
                    && board.legal_move(fr as int, fc as int, res@[k]),
                forall|k: int| 0 <= k < i && #[trigger] board.legal_move(fr as int, fc as int, pseudo@[k])
                    ==> has_move(res@, pseudo@[k]),
                res@.no_duplicates(),
            decreases pseudo@.len() - i,
        {
            let m = pseudo[i];
            proof {
                assert(board.good_move(fr as int, fc as int, Seq::<(u8, u8)>::empty(), pseudo@[i as int]));
                board.lemma_sound_is_pseudo(fr as int, fc as int, m);
            }
            let safe = board.safe_after(fr, fc, &m);
            let ghost before = res@;
            if safe && !has_move_exec(&res, &m) {
                res.push(m);
                proof {
                    assert(res@.last() == m);
                    assert forall|a: int, b: int| 0 <= a < b < res@.len() implies res@[a] != res@[b] by {
                        if b == res@.len() - 1 {
                            if res@[a] == res@[b] {
                                assert(before[a] == m);
                            }
                        } else {
                            assert(before[a] != before[b]);
                        }
                    }
                }
            }
            proof {
                assert forall|k: int| 0 <= k < i + 1 && #[trigger] board.legal_move(fr as int, fc as int, pseudo@[k])
                    implies has_move(res@, pseudo@[k]) by {
                    if k < i {
                        let w = choose|w: int| 0 <= w < before.len() && before[w] == pseudo@[k];
                        assert(res@[w] == before[w]);
                    } else {
                        if safe && !has_move(before, m) {
                            assert(res@[res@.len() - 1] == m);
                        } else if has_move(before, m) {
                            let w = choose|w: int| 0 <= w < before.len() && before[w] == m;
                            assert(res@[w] == before[w]);
                        }
                    }
                }
            }
            i = i + 1;
        }
        proof {
            assert forall|m: Move| #[trigger] board.legal_move(fr as int, fc as int, m) implies has_move(res@, m) by {
                assert(has_move(pseudo@, m));
                let k = choose|k: int| 0 <= k < pseudo@.len() && pseudo@[k] == m;
                assert(board.legal_move(fr as int, fc as int, pseudo@[k]));
            }
            assert forall|m: Move, t: PieceType| has_move(res@, m) && m.promotion is Some && promotion_kind(t)
                implies #[trigger] has_move(res@, Move { promotion: Some(t), ..m }) by {
                let w = choose|w: int| 0 <= w < res@.len() && res@[w] == m;
                assert(board.legal_move(fr as int, fc as int, res@[w]));
                lemma_promotions_together(*board, fr as int, fc as int, m, t);
                assert(board.legal_move(fr as int, fc as int, Move { promotion: Some(t), ..m }));
            }
        }
        res
    }
}

/// Whether `ms` holds `m`.
fn has_move_exec(ms: &Vec<Move>, m: &Move) -> (r: bool)
    ensures
        r == has_move(ms@, *m),
{
    let mut i: usize = 0;
    while i < ms.len()
        invariant
            i <= ms@.len(),
            forall|k: int| 0 <= k < i ==> ms@[k] != *m,
        decreases ms@.len() - i,
    {
        if same_move(&ms[i], m) {
            return true;
        }
        i = i + 1;
    }
    false
}

fn same_move(a: &Move, b: &Move) -> (r: bool)
    ensures
        r == (*a == *b),
{
    let capture = match (a.capture, b.capture) {
        (None, None) => true,
        (Some(x), Some(y)) => x == y,
        _ => false,
    };
    let promotion = match (a.promotion, b.promotion) {
        (None, None) => true,
        (Some(x), Some(y)) => x == y,
        _ => false,
    };
    let rook_to = match (a.rook_to, b.rook_to) {
        (None, None) => true,
        (Some(x), Some(y)) => x.0 == y.0 && x.1 == y.1,
        _ => false,
    };
    a.to.0 == b.to.0 && a.to.1 == b.to.1 && capture && promotion && a.castling == b.castling && rook_to
}

/// No king of `color` on `g` stands attacked.
pub open spec fn king_safe(g: Seq<Option<Piece>>, color: PieceColor) -> bool {
    forall|r: int, c: int| in_bounds(r, c) && is_own_king(#[trigger] cell_at(g, r, c), color) ==> !is_attacked_spec(g, r, c, color)
}

impl Board {
    /// A move of the pattern of the piece on `(fr, fc)`, or a castling move of a king.
    pub open spec fn pseudo_move(&self, fr: int, fc: int, m: Move) -> bool {
        ||| self.candidate(fr, fc, m)
        ||| (self.cell(fr, fc).unwrap().piece_type == PieceType::King && m.castling && m.capture is None
            && m.promotion is None && self.castle_ok(fr, fc, m))
    }

    /// A legal move of the piece on `(fr, fc)`: a move of its pattern after which no king of
    /// its side stands attacked.
    pub open spec fn legal_move(&self, fr: int, fc: int, m: Move) -> bool {
        &&& self.pseudo_move(fr, fc, m)
        &&& king_safe(applied_grid(self.squares@, fr, fc, m), self.cell(fr, fc).unwrap().color)
    }

    proof fn lemma_sound_is_pseudo(&self, fr: int, fc: int, m: Move)
        requires
            self.wf(),
            self.good_move(fr, fc, Seq::<(u8, u8)>::empty(), m),
        ensures
            self.pseudo_move(fr, fc, m),
    {
        let p = self.cell(fr, fc).unwrap();
        if !m.castling {
            if p.piece_type != PieceType::Pawn {
                assert(self.candidate(fr, fc, m));
            } else {
                assert(self.candidate(fr, fc, m));
            }
        }
    }

    /// Whether no king of `color` stands attacked.
    fn kings_safe(&self, color: PieceColor) -> (r: bool)
        requires
            self.wf(),
        ensures
            r == king_safe(self.squares@, color),
    {
        let mut i: usize = 0;
        while i < 64
            invariant
                self.wf(),
                i <= 64,
                forall|r: int, c: int| in_bounds(r, c) && r * 8 + c < i && is_own_king(#[trigger] cell_at(self.squares@, r, c), color)
                    ==> !is_attacked_spec(self.squares@, r, c, color),
            decreases 64 - i,
        {
            match self.squares[i] {
                Some(p) => {
                    if p.piece_type == PieceType::King && p.color == color {
                        assert(crate::board::placed_at(self.squares@[i as int], i as int));
                        if self.is_attacked(p.row as usize, p.col as usize, &color) {
                            assert(is_own_king(cell_at(self.squares@, p.row as int, p.col as int), color));
                            return false;
                        }
                    }
                },
                None => {},
            }
            proof {
                assert forall|r: int, c: int| in_bounds(r, c) && r * 8 + c < i + 1 && is_own_king(#[trigger] cell_at(self.squares@, r, c), color)
                    implies !is_attacked_spec(self.squares@, r, c, color) by {
                    if r * 8 + c == i {
                        assert(crate::board::placed_at(self.squares@[i as int], i as int));
                    }
                }
            }
            i = i + 1;
        }
        true
    }

    /// Whether, after the piece on `(fr, fc)` makes `m`, no king of its side stands attacked.
    fn safe_after(&self, fr: usize, fc: usize, m: &Move) -> (r: bool)
        requires
            self.valid(),
            self.applicable(fr as int, fc as int, *m),
        ensures
            r == king_safe(applied_grid(self.squares@, fr as int, fc as int, *m), self.cell(fr as int, fc as int).unwrap().color),
    {
        let color = self.squares[fr * 8 + fc].unwrap().color;
        let mut g: Vec<Option<Piece>> = Vec::new();
        let mut i: usize = 0;
        while i < 64
            invariant
                self.wf(),
                i <= 64,
                g@ == self.squares@.take(i as int),
            decreases 64 - i,
        {
            g.push(self.squares[i]);
            i = i + 1;
            assert(g@ =~= self.squares@.take(i as int));
        }
        assert(g@ =~= self.squares@);
        apply_grid(&mut g, fr, fc, m);
        let after = Board {
            squares: g,
            turn: self.turn,
            wq_castle: self.wq_castle,
            wk_castle: self.wk_castle,
            bq_castle: self.bq_castle,
            bk_castle: self.bk_castle,
            en_passant: self.en_passant,
            halfmove_clock: self.halfmove_clock,
            fullmove_number: self.fullmove_number,
            is_check: self.is_check,
            history: Vec::new(),
            layouts: Vec::new(),
            white_king_pos: self.white_king_pos,
            black_king_pos: self.black_king_pos,
        };
        after.kings_safe(color)
    }
}

/// Two grids that differ only on cell `x`, where each holds a piece of `color` other than a
/// king, see the same attackers of every square of `color`.
proof fn lemma_ray_same(g1: Seq<Option<Piece>>, g2: Seq<Option<Piece>>, x: int, r: int, c: int, dr: int, dc: int, color: PieceColor, k: int)
    requires
        g1.len() == 64,
        g2.len() == 64,
        forall|i: int| 0 <= i < 64 && i != x ==> #[trigger] g1[i] == g2[i],
        g1[x] is Some && g1[x].unwrap().color == color && g1[x].unwrap().piece_type != PieceType::King,
        g2[x] is Some && g2[x].unwrap().color == color && g2[x].unwrap().piece_type != PieceType::King,
    ensures
        crate::board::ray_attacker(g1, r, c, dr, dc, color, k) == crate::board::ray_attacker(g2, r, c, dr, dc, color, k),
    decreases 8 - k,
{
    if !(k < 1 || k >= 8 || !in_bounds(step(r, dr, k), step(c, dc, k))) {
        lemma_ray_same(g1, g2, x, r, c, dr, dc, color, k + 1);
        let idx = step(r, dr, k) * 8 + step(c, dc, k);
        if idx != x {
            assert(g1[idx] == g2[idx]);
        }
    }
}

proof fn lemma_attackers_same(g1: Seq<Option<Piece>>, g2: Seq<Option<Piece>>, x: int, r: int, c: int, color: PieceColor, n: int)
    requires
        g1.len() == 64,
        g2.len() == 64,
        in_bounds(r, c),
        forall|i: int| 0 <= i < 64 && i != x ==> #[trigger] g1[i] == g2[i],
        g1[x] is Some && g1[x].unwrap().color == color && g1[x].unwrap().piece_type != PieceType::King,
        g2[x] is Some && g2[x].unwrap().color == color && g2[x].unwrap().piece_type != PieceType::King,
    ensures
        crate::board::attack_parts(g1, r, c, color, n) == crate::board::attack_parts(g2, r, c, color, n),
    decreases n,
{
    if n > 0 {
        lemma_attackers_same(g1, g2, x, r, c, color, n - 1);
        let i = n - 1;
        if 8 <= i < 16 {
            lemma_ray_same(g1, g2, x, r, c, ray_dir(i - 8).0, ray_dir(i - 8).1, color, 1);
        } else {
            let (dr, dc) = if i < 8 { knight_offset(i) } else { crate::board::pawn_offset(color, i - 16) };
            if in_bounds(r + dr, c + dc) && (r + dr) * 8 + (c + dc) != x {
                assert(g1[(r + dr) * 8 + (c + dc)] == g2[(r + dr) * 8 + (c + dc)]);
            }
        }
    }
}

/// When a pawn's promotion is legal, promoting on the same move to any of the four kinds is
/// legal too.
pub proof fn lemma_promotions_together(b: Board, fr: int, fc: int, m: Move, t: PieceType)
    requires
        b.wf(),
        b.legal_move(fr, fc, m),
        m.promotion is Some,
        promotion_kind(t),
    ensures
        b.legal_move(fr, fc, Move { promotion: Some(t), ..m }),
{
    let m2 = Move { promotion: Some(t), ..m };
    let p = b.cell(fr, fc).unwrap();
    let g1 = applied_grid(b.squares@, fr, fc, m);
    let g2 = applied_grid(b.squares@, fr, fc, m2);
    let x = m.to.0 as int * 8 + m.to.1 as int;
    assert(b.candidate(fr, fc, m2));
    assert forall|i: int| 0 <= i < 64 && i != x implies #[trigger] g1[i] == g2[i] by {}
    assert forall|r: int, c: int| in_bounds(r, c) && is_own_king(#[trigger] cell_at(g2, r, c), p.color)
        implies !is_attacked_spec(g2, r, c, p.color) by {
        assert(g2[x] == Some(Piece { piece_type: t, color: p.color, row: m.to.0, col: m.to.1 }));
        assert(r * 8 + c != x);
        assert(g1[r * 8 + c] == g2[r * 8 + c]);
        assert(is_own_king(cell_at(g1, r, c), p.color));
        assert(!is_attacked_spec(g1, r, c, p.color));
        assert(g1[x] == Some(Piece { piece_type: m.promotion.unwrap(), color: p.color, row: m.to.0, col: m.to.1 }));
        lemma_attackers_same(g1, g2, x, r, c, p.color, 18);
    }
}

fn sign(x: i32) -> (r: i32)
    ensures
        r == sgn(x as int),
{
    if x > 0 {
        1
    } else if x < 0 {
        -1
    } else {
        0
    }
}

fn cheb_exec(x: i32, y: i32) -> (r: i32)
    requires
        -16 <= x <= 16,
        -16 <= y <= 16,
    ensures
        r == cheb(x as int, y as int),
{
    let ax = if x < 0 { -x } else { x };
    let ay = if y < 0 { -y } else { y };
    if ax >= ay {
        ax
    } else {
        ay
    }
}

/// Every move that the generator hands out for a piece can be taken back: playing it and
/// then undoing it restores the whole position.
pub proof fn lemma_generated_move_undo(
    b0: Board,
    fr: int,
    fc: int,
    chk: Seq<(u8, u8)>,
    m: Move,
    b1: Board,
    b2: Board,
)
    requires
        b0.valid(),
        b0.good_move(fr, fc, chk, m),
        b0.apply_post(fr, fc, m, b1),
        b1.undo_post(b2),
    ensures
        b2.same_state(b0),
{
    crate::play::lemma_undo_restores(b0, fr, fc, m, b1, b2);
}

} // verus!
