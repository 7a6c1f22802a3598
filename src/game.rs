use vstd::prelude::*;

use crate::board::{attackers_spec, cell_at, in_bounds, Board, DrawType, GameOutcome};
use crate::piece::{opposite_spec, potential_value_spec, value_spec, Move, Piece, PieceColor, PieceType};
use crate::movegen::has_move;
use crate::play::{check_spec, count_layout, layout_spec};

verus! {

/// Relies on `rand::random`: a value drawn from the thread-local generator. Nothing is
/// promised of it.
pub assume_specification<T>[ rand::random::<T> ]() -> (r: T)
    where
        rand::distributions::Standard: rand::distributions::Distribution<T>,
;

/// The material of `color` in the first `n` cells of `g`, counting pawns as queens when
/// `potential`.
pub open spec fn material_spec(g: Seq<Option<Piece>>, color: PieceColor, potential: bool, n: int) -> int
    decreases n,
{
    if n <= 0 {
        0
    } else {
        material_spec(g, color, potential, n - 1) + match g[n - 1] {
            Some(p) => if p.color == color {
                (if potential {
                    potential_value_spec(p.piece_type)
                } else {
                    value_spec(p.piece_type)
                }) as int
            } else {
                0int
            },
            None => 0int,
        }
    }
}

proof fn lemma_material_bound(g: Seq<Option<Piece>>, color: PieceColor, potential: bool, n: int)
    requires
        0 <= n,
    ensures
        0 <= material_spec(g, color, potential, n) <= 9 * n,
    decreases n,
{
    if n > 0 {
        lemma_material_bound(g, color, potential, n - 1);
    }
}

/// How a position stands, given whether the side to move has a legal move and whether the
/// last move made its placement occur for the third time.
pub open spec fn classify_spec(b: Board, has_moves: bool, third: bool) -> Option<GameOutcome> {
    if !has_moves && b.is_check {
        Some(GameOutcome::Checkmate(opposite_spec(b.turn)))
    } else if !has_moves {
        Some(GameOutcome::Draw(DrawType::Stalemate))
    } else if third {
        Some(GameOutcome::Draw(DrawType::ThreefoldRepetition))
    } else if material_spec(b.squares@, PieceColor::White, true, 64) < 4 && material_spec(
        b.squares@,
        PieceColor::Black,
        true,
        64,
    ) < 4 {
        Some(GameOutcome::Draw(DrawType::InsufficientMaterial))
    } else if b.halfmove_clock >= 100 {
        Some(GameOutcome::Draw(DrawType::FiftyMoveRule))
    } else {
        None
    }
}

/// `k` is the square of the first king of `color` on `g` in row order, or `(9, 9)` when `g`
/// has no such king.
pub open spec fn cache_ok(g: Seq<Option<Piece>>, k: (u8, u8), color: PieceColor) -> bool {
    &&& in_bounds(k.0 as int, k.1 as int) ==> cell_at(g, k.0 as int, k.1 as int) == Some(
        Piece { piece_type: PieceType::King, color, row: k.0, col: k.1 },
    )
    &&& in_bounds(k.0 as int, k.1 as int) ==> forall|i: int, j: int|
        in_bounds(i, j) && i * 8 + j < k.0 * 8 + k.1 ==> !(#[trigger] cell_at(g, i, j) is Some
            && cell_at(g, i, j).unwrap().piece_type == PieceType::King && cell_at(g, i, j).unwrap().color
            == color)
    &&& !in_bounds(k.0 as int, k.1 as int) ==> k == (9u8, 9u8) && forall|i: int, j: int|
        in_bounds(i, j) ==> !(#[trigger] cell_at(g, i, j) is Some && cell_at(g, i, j).unwrap().piece_type
            == PieceType::King && cell_at(g, i, j).unwrap().color == color)
}

pub open spec fn has_entry(rs: Seq<(usize, usize, Move)>, e: (usize, usize, Move)) -> bool {
    exists|i: int| 0 <= i < rs.len() && rs[i] == e
}

impl Board {
    /// The cached square of the king of `color` holds that king; when no king of `color`
    /// stands on the board, the cache is `(9, 9)`.
    pub open spec fn king_cache_ok(&self, color: PieceColor) -> bool {
        cache_ok(self.squares@, self.king_pos_spec(color), color)
    }

    /// The piece of the side to move on `(fr, fc)` has the legal move `m`.
    pub open spec fn legal_at(&self, fr: int, fc: int, m: Move) -> bool {
        &&& in_bounds(fr, fc)
        &&& self.cell(fr, fc) is Some
        &&& self.cell(fr, fc).unwrap().color == self.turn
        &&& self.legal_move(fr, fc, m)
    }

    /// The side to move has a legal move.
    pub open spec fn has_legal_move(&self) -> bool {
        exists|fr: int, fc: int, m: Move| #[trigger] self.legal_at(fr, fc, m)
    }

    /// This position came from `before` by the legal move `m` of the piece on `(fr, fc)`, and
    /// `r` is how the game then stands.
    pub open spec fn played_via(&self, before: Board, r: Option<GameOutcome>, fr: int, fc: int, m: Move) -> bool {
        &&& before.legal_at(fr, fc, m)
        &&& before.applicable(fr, fc, m)
        &&& before.apply_post(fr, fc, m, *self)
        &&& r == classify_spec(
            *self,
            self.has_legal_move(),
            count_layout(self.layout_views(), layout_spec(self.squares@)) == 3,
        )
    }

    /// This position came from `before` by one legal move, and `r` says how the game stands.
    pub open spec fn played_from(&self, before: Board, r: Option<GameOutcome>) -> bool {
        exists|fr: int, fc: int, m: Move| #[trigger] self.played_via(before, r, fr, fc, m)
    }

    /// The square of the first king of `color` in row order, or `(9, 9)` when there is none.
    pub fn king_coords(&self, color: &PieceColor) -> (r: (u8, u8))
        requires
            self.wf(),
        ensures
            cache_ok(self.squares@, r, *color),
    {
        let mut i: usize = 0;
        while i < 64
            invariant
                self.wf(),
                i <= 64,
                forall|j: int| 0 <= j < i ==> !(#[trigger] self.squares@[j] is Some
                    && self.squares@[j].unwrap().piece_type == PieceType::King
                    && self.squares@[j].unwrap().color == *color),
            decreases 64 - i,
        {
            match self.squares[i] {
                Some(p) => {
                    if p.piece_type == PieceType::King && p.color == *color {
                        assert(crate::board::placed_at(self.squares@[i as int], i as int));
                        proof {
                            assert forall|a: int, b: int| in_bounds(a, b) && a * 8 + b < p.row * 8 + p.col implies !(
                            #[trigger] cell_at(self.squares@, a, b) is Some && cell_at(self.squares@, a, b).unwrap().piece_type
                                == PieceType::King && cell_at(self.squares@, a, b).unwrap().color == *color) by {
                                assert(self.squares@[a * 8 + b] == cell_at(self.squares@, a, b));
                            }
                        }
                        return (p.row, p.col);
                    }
                },
                None => {},
            }
            i = i + 1;
        }
        proof {
            assert forall|r: int, c: int| in_bounds(r, c) implies !(#[trigger] self.cell(r, c) is Some
                && self.cell(r, c).unwrap().piece_type == PieceType::King && self.cell(r, c).unwrap().color
                == *color) by {
                assert(0 <= r * 8 + c < 64);
            }
        }
        (9, 9)
    }

    /// The squares of the enemies that attack the king of `color` at its cached square; empty
    /// when that square is off the board. With `early_stop`, at most the first of them.
    pub fn get_checking_pieces(&self, color: &PieceColor, early_stop: bool) -> (r: Vec<(u8, u8)>)
        requires
            self.wf(),
        ensures
            ({
                let k = self.king_pos_spec(*color);
                let all = attackers_spec(self.squares@, k.0 as int, k.1 as int, *color);
                if in_bounds(k.0 as int, k.1 as int) {
                    if early_stop {
                        r@ == all.take(if all.len() > 0 { 1int } else { 0int })
                    } else {
                        r@ == all
                    }
                } else {
                    r@.len() == 0
                }
            }),
    {
        let k = match color {
            PieceColor::White => self.white_king_pos,
            PieceColor::Black => self.black_king_pos,
        };
        if k.0 < 8 && k.1 < 8 {
            self.get_attacking_pieces(k.0 as usize, k.1 as usize, color, early_stop)
        } else {
            Vec::new()
        }
    }

    /// Whether the king of `color` stands attacked on its cached square.
    pub fn is_check(&self, color: &PieceColor) -> (r: bool)
        requires
            self.wf(),
        ensures
            r == check_spec(self.squares@, self.king_pos_spec(*color), *color),
    {
        self.king_attacked(*color)
    }

    /// Every legal move of the side to move, each once, with the square it starts from.
    pub fn legal_moves(&self) -> (r: Vec<(usize, usize, Move)>)
        requires
            self.valid(),
        ensures
            forall|i: int| 0 <= i < r@.len() ==> {
                let (fr, fc, m) = #[trigger] r@[i];
                self.legal_at(fr as int, fc as int, m) && self.applicable(fr as int, fc as int, m)
            },
            forall|fr: int, fc: int, m: Move| #[trigger] self.legal_at(fr, fc, m) ==> has_entry(
                r@,
                (fr as usize, fc as usize, m),
            ),
            r@.no_duplicates(),
    {
        let mut res: Vec<(usize, usize, Move)> = Vec::new();
        let mut i: usize = 0;
        while i < 64
            invariant
                self.valid(),
                i <= 64,
                forall|j: int| 0 <= j < res@.len() ==> {
                    let (fr, fc, m) = #[trigger] res@[j];
                    &&& self.legal_at(fr as int, fc as int, m)
                    &&& self.applicable(fr as int, fc as int, m)
                    &&& (fr as int) * 8 + (fc as int) < i
                },
                forall|fr: int, fc: int, m: Move| #[trigger] self.legal_at(fr, fc, m) && fr * 8 + fc < i
                    ==> has_entry(res@, (fr as usize, fc as usize, m)),
                res@.no_duplicates(),
            decreases 64 - i,
        {
            let ghost res0 = res@;
            match self.squares[i] {
                Some(p) => {
                    if p.color == self.turn {
                        assert(crate::board::placed_at(self.squares@[i as int], i as int));
                        let ms = p.generate_moves(self);
                        let fr = p.row as usize;
                        let fc = p.col as usize;
                        let mut j: usize = 0;
                        while j < ms.len()
                            invariant
                                self.valid(),
                                in_bounds(fr as int, fc as int),
                                fr * 8 + fc == i,
                                i < 64,
                                self.cell(fr as int, fc as int) == Some(p),
                                p.color == self.turn,
                                p.row == fr,
                                p.col == fc,
                                forall|k: int| 0 <= k < ms@.len() ==> self.applicable(fr as int, fc as int, #[trigger] ms@[k])
                                    && self.legal_move(fr as int, fc as int, ms@[k]),
                                ms@.no_duplicates(),
                                j <= ms@.len(),
                                res@.len() == res0.len() + j,
                                forall|k: int| 0 <= k < res0.len() ==> #[trigger] res@[k] == res0[k],
                                forall|k: int| 0 <= k < j ==> res@[res0.len() + k] == (fr, fc, #[trigger] ms@[k]),
                                forall|k: int| 0 <= k < res0.len() ==> {
                                    let (a, b, m) = #[trigger] res0[k];
                                    &&& self.legal_at(a as int, b as int, m)
                                    &&& self.applicable(a as int, b as int, m)
                                    &&& (a as int) * 8 + (b as int) < i
                                },
                                res0.no_duplicates(),
                            decreases ms@.len() - j,
                        {
                            let m = ms[j];
                            res.push((fr, fc, m));
                            assert(res@[res0.len() + j] == (fr, fc, m));
                            j = j + 1;
                        }
                        proof {
                            assert forall|k: int| 0 <= k < res@.len() implies {
                                let (a, b, m) = #[trigger] res@[k];
                                &&& self.legal_at(a as int, b as int, m)
                                &&& self.applicable(a as int, b as int, m)
                                &&& (a as int) * 8 + (b as int) < i + 1
                            } by {
                                if k >= res0.len() {
                                    assert(res@[res0.len() + (k - res0.len())] == (fr, fc, ms@[k - res0.len()]));
                                }
                            }
                            assert forall|x: int, y: int| 0 <= x < y < res@.len() implies res@[x] != res@[y] by {
                                if y >= res0.len() {
                                    assert(res@[res0.len() + (y - res0.len())] == (fr, fc, ms@[y - res0.len()]));
                                    if x >= res0.len() {
                                        assert(res@[res0.len() + (x - res0.len())] == (fr, fc, ms@[x - res0.len()]));
                                    } else {
                                        let (a, b, m) = res0[x];
                                        assert((a as int) * 8 + (b as int) < i);
                                    }
                                }
                            }
                            assert forall|r: int, c: int, m: Move| #[trigger] self.legal_at(r, c, m) && r * 8 + c < i + 1
                                implies has_entry(res@, (r as usize, c as usize, m)) by {
                                if r * 8 + c < i {
                                    let w = choose|w: int| 0 <= w < res0.len() && res0[w] == (r as usize, c as usize, m);
                                    assert(res@[w] == res0[w]);
                                } else {
                                    assert(r == fr && c == fc);
                                    assert(has_move(ms@, m));
                                    let k = choose|k: int| 0 <= k < ms@.len() && ms@[k] == m;
                                    assert(res@[res0.len() + k] == (fr, fc, ms@[k]));
                                }
                            }
                        }
                    } else {
                        proof {
                            assert forall|r: int, c: int, m: Move| #[trigger] self.legal_at(r, c, m) && r * 8 + c < i + 1
                                implies has_entry(res@, (r as usize, c as usize, m)) by {
                                if r * 8 + c == i {
                                    assert(self.squares@[i as int] == self.cell(r, c));
                                }
                            }
                        }
                    }
                },
                None => {
                    proof {
                        assert forall|r: int, c: int, m: Move| #[trigger] self.legal_at(r, c, m) && r * 8 + c < i + 1
                            implies has_entry(res@, (r as usize, c as usize, m)) by {
                            if r * 8 + c == i {
                                assert(self.squares@[i as int] == self.cell(r, c));
                            }
                        }
                    }
                },
            }
            i = i + 1;
        }
        res
    }


    /// The material of each side, White's first; with `potential`, pawns count as queens.
    pub fn material_count(&self, potential: bool) -> (r: (usize, usize))
        requires
            self.wf(),
        ensures
            r.0 == material_spec(self.squares@, PieceColor::White, potential, 64),
            r.1 == material_spec(self.squares@, PieceColor::Black, potential, 64),
    {
        let mut white: usize = 0;
        let mut black: usize = 0;
        let mut i: usize = 0;
        while i < 64
            invariant
                self.wf(),
                i <= 64,
                white == material_spec(self.squares@, PieceColor::White, potential, i as int),
                black == material_spec(self.squares@, PieceColor::Black, potential, i as int),
            decreases 64 - i,
        {
            proof {
                lemma_material_bound(self.squares@, PieceColor::White, potential, i as int);
                lemma_material_bound(self.squares@, PieceColor::Black, potential, i as int);
            }
            match self.squares[i] {
                Some(p) => {
                    let v = if potential { p.get_potential_value() } else { p.get_value() };
                    match p.color {
                        PieceColor::White => white = white + v,
                        PieceColor::Black => black = black + v,
                    }
                },
                None => {},
            }
            i = i + 1;
        }
        (white, black)
    }

    /// How the game stands, given whether the side to move has a legal move and whether the
    /// last move made its placement occur for the third time.
    pub fn classify(&self, has_moves: bool, third: bool) -> (r: Option<GameOutcome>)
        requires
            self.wf(),
        ensures
            r == classify_spec(*self, has_moves, third),
    {
        if !has_moves {
            if self.is_check {
                return Some(GameOutcome::Checkmate(self.turn.opposite()));
            }
            return Some(GameOutcome::Draw(DrawType::Stalemate));
        }
        if third {
            return Some(GameOutcome::Draw(DrawType::ThreefoldRepetition));
        }
        let potential = self.material_count(true);
        if potential.0 < 4 && potential.1 < 4 {
            Some(GameOutcome::Draw(DrawType::InsufficientMaterial))
        } else if self.halfmove_clock >= 100 {
            Some(GameOutcome::Draw(DrawType::FiftyMoveRule))
        } else {
            None
        }
    }

    /// Plays the legal move at `index` (modulo their number) of `legal_moves()` and says how
    /// the game then stands. When the side to move has no legal move, nothing is played and
    /// the outcome is mate or stalemate.
    pub fn play_indexed_move(&mut self, index: usize) -> (r: Option<GameOutcome>)
        requires
            old(self).valid(),
        ensures
            final(self).valid(),
            !old(self).has_legal_move() ==> *final(self) == *old(self) && r == classify_spec(
                *old(self),
                false,
                false,
            ),
            old(self).has_legal_move() ==> final(self).played_from(*old(self), r),
    {
        let moves = self.legal_moves();
        if moves.len() == 0 {
            proof {
                if self.has_legal_move() {
                    let (fr, fc, m) = choose|fr: int, fc: int, m: Move| #[trigger] self.legal_at(fr, fc, m);
                    assert(has_entry(moves@, (fr as usize, fc as usize, m)));
                }
            }
            return self.classify(false, false);
        }
        let k = index % moves.len();
        let (fr, fc, mv) = moves[k];
        assert(moves@[k as int] == (fr, fc, mv));
        let ghost before = *self;
        let third = self.play_move((fr, fc), &mv);
        let next = self.legal_moves();
        proof {
            if next.len() > 0 {
                let (a, b, m) = next@[0];
                assert(self.legal_at(a as int, b as int, m));
            } else if self.has_legal_move() {
                let (fr2, fc2, m2) = choose|fr: int, fc: int, m: Move| #[trigger] self.legal_at(fr, fc, m);
                assert(has_entry(next@, (fr2 as usize, fc2 as usize, m2)));
            }
            assert((next.len() > 0) == self.has_legal_move());
            assert(before.legal_at(fr as int, fc as int, mv));
        }
        let r = self.classify(next.len() > 0, third);
        assert(self.played_via(before, r, fr as int, fc as int, mv));
        r
    }

    /// Plays a move chosen at random among the legal ones and says how the game then stands.
    pub fn play_random_move(&mut self) -> (r: Option<GameOutcome>)
        requires
            old(self).valid(),
        ensures
            final(self).valid(),
            !old(self).has_legal_move() ==> *final(self) == *old(self) && r == classify_spec(
                *old(self),
                false,
                false,
            ),
            old(self).has_legal_move() ==> final(self).played_from(*old(self), r),
    {
        let pick: usize = rand::random::<usize>();
        self.play_indexed_move(pick)
    }
}


} // verus!
