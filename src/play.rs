use vstd::prelude::*;

use crate::board::{
    cell_at, grid_wf, in_bounds, is_attacked_spec, placed_at, Board, HistoryData,
};
use crate::piece::{opposite_spec, Move, Piece, PieceColor, PieceType};

verus! {

pub open spec fn idx(r: int, c: int) -> int {
    r * 8 + c
}

pub open spec fn kind_index(t: PieceType) -> int {
    match t {
        PieceType::Pawn => 0,
        PieceType::Rook => 1,
        PieceType::Knight => 2,
        PieceType::Bishop => 3,
        PieceType::Queen => 4,
        PieceType::King => 5,
    }
}

/// The code of one square in a placement signature: 0 when empty, else one of twelve
/// codes for the kind and side of the occupant.
pub open spec fn square_code(o: Option<Piece>) -> u8 {
    match o {
        None => 0,
        Some(p) => (1 + kind_index(p.piece_type) + if p.color == PieceColor::White {
            0int
        } else {
            6int
        }) as u8,
    }
}

/// The placement signature of a grid: piece placement only.
pub open spec fn layout_spec(g: Seq<Option<Piece>>) -> Seq<u8> {
    Seq::new(64, |i: int| square_code(g[i]))
}

/// How many entries of `ls` equal `sig`.
pub open spec fn count_layout(ls: Seq<Seq<u8>>, sig: Seq<u8>) -> nat
    decreases ls.len(),
{
    if ls.len() == 0 {
        0
    } else {
        count_layout(ls.drop_last(), sig) + if ls.last() == sig {
            1nat
        } else {
            0nat
        }
    }
}

/// The column the rook of a castling move starts from, given the column it goes to.
pub open spec fn rook_home_col(rook_to_col: int) -> int {
    if rook_to_col == 5 {
        7
    } else {
        0
    }
}

pub open spec fn moved_to(p: Piece, r: int, c: int) -> Piece {
    Piece { piece_type: p.piece_type, color: p.color, row: r as u8, col: c as u8 }
}

/// The grid after the piece on `(fr, fc)` makes move `mv`.
pub open spec fn applied_grid(g: Seq<Option<Piece>>, fr: int, fc: int, mv: Move) -> Seq<Option<Piece>> {
    let p = cell_at(g, fr, fc).unwrap();
    let hc = rook_home_col(mv.rook_to.unwrap().1 as int);
    let g1 = g.update(idx(fr, fc), None);
    let g2 = if mv.castling && cell_at(g1, fr, hc) is Some {
        let rt = mv.rook_to.unwrap();
        g1.update(idx(fr, hc), None).update(
            idx(rt.0 as int, rt.1 as int),
            Some(moved_to(cell_at(g1, fr, hc).unwrap(), rt.0 as int, rt.1 as int)),
        )
    } else {
        g1
    };
    let g3 = match mv.capture {
        Some(c) => if (c.row, c.col) != mv.to {
            g2.update(idx(c.row as int, c.col as int), None)
        } else {
            g2
        },
        None => g2,
    };
    let placed = match mv.promotion {
        Some(t) => Piece { piece_type: t, color: p.color, row: mv.to.0, col: mv.to.1 },
        None => moved_to(p, mv.to.0 as int, mv.to.1 as int),
    };
    g3.update(idx(mv.to.0 as int, mv.to.1 as int), Some(placed))
}

/// The grid after taking back the move recorded in `h`.
pub open spec fn undone_grid(g: Seq<Option<Piece>>, h: HistoryData) -> Seq<Option<Piece>> {
    let mv = h.mv;
    let g1 = if mv.castling && cell_at(g, mv.rook_to.unwrap().0 as int, mv.rook_to.unwrap().1 as int) is Some {
        let rt = mv.rook_to.unwrap();
        let hc = rook_home_col(rt.1 as int);
        g.update(idx(rt.0 as int, rt.1 as int), None).update(
            idx(rt.0 as int, hc),
            Some(moved_to(cell_at(g, rt.0 as int, rt.1 as int).unwrap(), rt.0 as int, hc)),
        )
    } else {
        g
    };
    let moving = cell_at(g1, mv.to.0 as int, mv.to.1 as int);
    let g2 = g1.update(idx(mv.to.0 as int, mv.to.1 as int), None);
    let g3 = match mv.capture {
        Some(c) => g2.update(idx(c.row as int, c.col as int), Some(c)),
        None => g2,
    };
    match moving {
        Some(p) => {
            let back = Piece {
                piece_type: if mv.promotion is Some { PieceType::Pawn } else { p.piece_type },
                color: p.color,
                row: h.starting_row,
                col: h.starting_col,
            };
            g3.update(idx(h.starting_row as int, h.starting_col as int), Some(back))
        },
        None => g3,
    }
}

/// The squares that a history record names lie on the board.
pub open spec fn record_ok(h: HistoryData) -> bool {
    &&& in_bounds(h.starting_row as int, h.starting_col as int)
    &&& in_bounds(h.mv.to.0 as int, h.mv.to.1 as int)
    &&& (h.mv.capture is Some ==> placed_at(
        h.mv.capture,
        idx(h.mv.capture.unwrap().row as int, h.mv.capture.unwrap().col as int),
    ))
    &&& (h.mv.castling ==> h.mv.rook_to is Some && in_bounds(
        h.mv.rook_to.unwrap().0 as int,
        h.mv.rook_to.unwrap().1 as int,
    ))
}

/// Whether the king of `color`, cached at `k`, stands attacked.
pub open spec fn check_spec(g: Seq<Option<Piece>>, k: (u8, u8), color: PieceColor) -> bool {
    in_bounds(k.0 as int, k.1 as int) && is_attacked_spec(g, k.0 as int, k.1 as int, color)
}

impl Board {
    /// The grid, the record list and the signature list are consistent.
    pub open spec fn valid(&self) -> bool {
        &&& self.wf()
        &&& self.layouts@.len() == self.history@.len() + 1
        &&& forall|i: int| 0 <= i < self.history@.len() ==> record_ok(#[trigger] self.history@[i])
    }

    pub open spec fn layout_views(&self) -> Seq<Seq<u8>> {
        self.layouts@.map_values(|v: Vec<u8>| v@)
    }

    pub open spec fn king_pos_spec(&self, color: PieceColor) -> (u8, u8) {
        match color {
            PieceColor::White => self.white_king_pos,
            PieceColor::Black => self.black_king_pos,
        }
    }

    /// The piece on `(fr, fc)` can make move `mv` on this grid: the squares it names are on
    /// the board and hold what the move says they hold.
    pub open spec fn applicable(&self, fr: int, fc: int, mv: Move) -> bool {
        let p = self.cell(fr, fc).unwrap();
        let to = (mv.to.0 as int, mv.to.1 as int);
        &&& in_bounds(fr, fc)
        &&& in_bounds(to.0, to.1)
        &&& (fr, fc) != to
        &&& self.cell(fr, fc) is Some
        &&& (mv.promotion is Some ==> p.piece_type == PieceType::Pawn && !mv.castling)
        &&& (!mv.castling ==> mv.rook_to is None)
        &&& if mv.castling {
            let rt = mv.rook_to.unwrap();
            let hc = rook_home_col(rt.1 as int);
            &&& p.piece_type == PieceType::King
            &&& mv.capture is None
            &&& mv.rook_to is Some
            &&& in_bounds(rt.0 as int, rt.1 as int)
            &&& rt.0 == fr
            &&& to.0 == fr
            &&& self.cell(fr, hc) is Some
            &&& self.cell(fr, hc).unwrap().color == p.color
            &&& hc != fc
            &&& rt.1 != fc
            &&& rt.1 != hc
            &&& to.1 != rt.1
            &&& to.1 != hc
            &&& self.cell(to.0, to.1) is None
            &&& self.cell(rt.0 as int, rt.1 as int) is None
        } else {
            match mv.capture {
                None => self.cell(to.0, to.1) is None,
                Some(c) => {
                    &&& in_bounds(c.row as int, c.col as int)
                    &&& self.cell(c.row as int, c.col as int) == Some(c)
                    &&& c.color != p.color
                    &&& ((c.row as int, c.col as int) == to || (self.cell(to.0, to.1) is None
                        && self.en_passant == Some(mv.to) && p.piece_type == PieceType::Pawn
                        && c.piece_type == PieceType::Pawn && c.row as int == fr && c.col == mv.to.1
                        && (c.row as int, c.col as int) != (fr, fc)))
                },
            }
        }
    }

    /// What `play_move` does: `new` is this position after the piece on `(fr, fc)` makes `mv`.
    pub open spec fn apply_post(&self, fr: int, fc: int, mv: Move, new: Board) -> bool {
        let p = self.cell(fr, fc).unwrap();
        let king_moved = p.piece_type == PieceType::King;
        let rook_from_home = p.piece_type == PieceType::Rook && fr == (if p.color
            == PieceColor::White {
            7int
        } else {
            0int
        });
        let g = applied_grid(self.squares@, fr, fc, mv);
        let turn = opposite_spec(self.turn);
        let wk = if king_moved && p.color == PieceColor::White {
            mv.to
        } else {
            self.white_king_pos
        };
        let bk = if king_moved && p.color == PieceColor::Black {
            mv.to
        } else {
            self.black_king_pos
        };
        &&& new.squares@ == g
        &&& new.turn == turn
        &&& new.white_king_pos == wk
        &&& new.black_king_pos == bk
        &&& new.wk_castle == (self.wk_castle && !(p.color == PieceColor::White && (king_moved || (
        rook_from_home && fc == 7))))
        &&& new.wq_castle == (self.wq_castle && !(p.color == PieceColor::White && (king_moved || (
        rook_from_home && fc == 0))))
        &&& new.bk_castle == (self.bk_castle && !(p.color == PieceColor::Black && (king_moved || (
        rook_from_home && fc == 7))))
        &&& new.bq_castle == (self.bq_castle && !(p.color == PieceColor::Black && (king_moved || (
        rook_from_home && fc == 0))))
        &&& new.en_passant == (if p.piece_type == PieceType::Pawn && (mv.to.0 as int == fr + 2
            || mv.to.0 as int == fr - 2) {
            Some((((fr + mv.to.0 as int) / 2) as u8, fc as u8))
        } else {
            None
        })
        &&& new.halfmove_clock == (if p.piece_type == PieceType::Pawn || mv.promotion is Some
            || mv.capture is Some {
            0
        } else if self.halfmove_clock < u16::MAX {
            (self.halfmove_clock + 1) as u16
        } else {
            self.halfmove_clock
        })
        &&& new.fullmove_number == (if self.turn == PieceColor::Black
            && self.fullmove_number < u16::MAX {
            (self.fullmove_number + 1) as u16
        } else {
            self.fullmove_number
        })
        &&& new.is_check == check_spec(g, if turn == PieceColor::White { wk } else { bk }, turn)
        &&& new.history@ == self.history@.push(self.record_spec(fr, fc, mv))
        &&& new.layouts@.len() == self.layouts@.len() + 1
        &&& new.layouts@.drop_last() == self.layouts@
        &&& new.layouts@.last()@ == layout_spec(g)
    }

    /// The record that `play_move` keeps for taking the move back.
    pub open spec fn record_spec(&self, fr: int, fc: int, mv: Move) -> HistoryData {
        HistoryData {
            starting_row: fr as u8,
            starting_col: fc as u8,
            mv,
            wq_castle: self.wq_castle,
            wk_castle: self.wk_castle,
            bq_castle: self.bq_castle,
            bk_castle: self.bk_castle,
            en_passant: self.en_passant,
            halfmove_clock: self.halfmove_clock,
            fullmove_number: self.fullmove_number,
            is_check: self.is_check,
            white_king_pos: self.white_king_pos,
            black_king_pos: self.black_king_pos,
        }
    }

    /// What `rollback_move` does: `new` is this position with its last move taken back.
    pub open spec fn undo_post(&self, new: Board) -> bool {
        let h = self.history@.last();
        &&& new.squares@ == undone_grid(self.squares@, h)
        &&& new.turn == opposite_spec(self.turn)
        &&& new.wq_castle == h.wq_castle
        &&& new.wk_castle == h.wk_castle
        &&& new.bq_castle == h.bq_castle
        &&& new.bk_castle == h.bk_castle
        &&& new.en_passant == h.en_passant
        &&& new.halfmove_clock == h.halfmove_clock
        &&& new.fullmove_number == h.fullmove_number
        &&& new.is_check == h.is_check
        &&& new.white_king_pos == h.white_king_pos
        &&& new.black_king_pos == h.black_king_pos
        &&& new.history@ == self.history@.drop_last()
        &&& new.layouts@ == self.layouts@.drop_last()
    }

    /// Every part of the position, history included, is the same in both.
    pub open spec fn same_state(&self, o: Board) -> bool {
        &&& self.squares@ == o.squares@
        &&& self.turn == o.turn
        &&& self.wq_castle == o.wq_castle
        &&& self.wk_castle == o.wk_castle
        &&& self.bq_castle == o.bq_castle
        &&& self.bk_castle == o.bk_castle
        &&& self.en_passant == o.en_passant
        &&& self.halfmove_clock == o.halfmove_clock
        &&& self.fullmove_number == o.fullmove_number
        &&& self.is_check == o.is_check
        &&& self.white_king_pos == o.white_king_pos
        &&& self.black_king_pos == o.black_king_pos
        &&& self.history@ == o.history@
        &&& self.layouts@ == o.layouts@
    }

    /// The placement signature of the current grid.
    pub fn layout(&self) -> (r: Vec<u8>)
        requires
            self.wf(),
        ensures
            r@ == layout_spec(self.squares@),
    {
        let mut r: Vec<u8> = Vec::new();
        let mut i: usize = 0;
        while i < 64
            invariant
                self.wf(),
                i <= 64,
                r@ == layout_spec(self.squares@).take(i as int),
            decreases 64 - i,
        {
            let code: u8 = match self.squares[i] {
                None => 0,
                Some(p) => {
                    let k: u8 = match p.piece_type {
                        PieceType::Pawn => 0,
                        PieceType::Rook => 1,
                        PieceType::Knight => 2,
                        PieceType::Bishop => 3,
                        PieceType::Queen => 4,
                        PieceType::King => 5,
                    };
                    let s: u8 = match p.color {
                        PieceColor::White => 0,
                        PieceColor::Black => 6,
                    };
                    1 + k + s
                },
            };
            r.push(code);
            i = i + 1;
            assert(r@ =~= layout_spec(self.squares@).take(i as int));
        }
        assert(r@ =~= layout_spec(self.squares@));
        r
    }

    /// How many times the placement `sig` has occurred in this game.
    pub fn layout_count(&self, sig: &Vec<u8>) -> (n: usize)
        ensures
            n == count_layout(self.layout_views(), sig@),
    {
        let ghost ls = self.layout_views();
        let mut n: usize = 0;
        let mut i: usize = 0;
        while i < self.layouts.len()
            invariant
                ls == self.layout_views(),
                i <= self.layouts@.len(),
                n == count_layout(ls.take(i as int), sig@),
                n <= i,
            decreases self.layouts@.len() - i,
        {
            let same = same_bytes(&self.layouts[i], sig);
            assert(ls.take(i + 1).drop_last() =~= ls.take(i as int));
            if same {
                n = n + 1;
            }
            i = i + 1;
        }
        assert(ls.take(i as int) =~= ls);
        n
    }

    /// Whether the king of `color` stands attacked, by its cached square.
    pub fn king_attacked(&self, color: PieceColor) -> (r: bool)
        requires
            self.wf(),
        ensures
            r == check_spec(self.squares@, self.king_pos_spec(color), color),
    {
        let k = match color {
            PieceColor::White => self.white_king_pos,
            PieceColor::Black => self.black_king_pos,
        };
        if k.0 < 8 && k.1 < 8 {
            self.is_attacked(k.0 as usize, k.1 as usize, &color)
        } else {
            false
        }
    }

    /// Plays `mv` with the piece on `from`, keeps a record for taking it back, and says
    /// whether the resulting placement has now occurred for the third time.
    #[verifier::rlimit(100)]
    pub fn play_move(&mut self, from: (usize, usize), mv: &Move) -> (third: bool)
        requires
            old(self).valid(),
            old(self).applicable(from.0 as int, from.1 as int, *mv),
        ensures
            final(self).valid(),
            old(self).apply_post(from.0 as int, from.1 as int, *mv, *final(self)),
            third == (count_layout(final(self).layout_views(), layout_spec(final(self).squares@))
                == 3),
    {
        let ghost g0 = self.squares@;
        let (fr, fc) = from;
        let record = HistoryData::new(self, (fr as u8, fc as u8), mv);
        self.history.push(record);
        let piece = self.squares[fr * 8 + fc].unwrap();
        apply_grid(&mut self.squares, fr, fc, mv);
        let is_white = match piece.color {
            PieceColor::White => true,
            PieceColor::Black => false,
        };
        match piece.piece_type {
            PieceType::King => {
                if is_white {
                    self.wk_castle = false;
                    self.wq_castle = false;
                    self.white_king_pos = mv.to;
                } else {
                    self.bk_castle = false;
                    self.bq_castle = false;
                    self.black_king_pos = mv.to;
                }
            },
            PieceType::Rook => {
                let home_row: usize = if is_white { 7 } else { 0 };
                if fr == home_row {
                    if fc == 0 {
                        if is_white {
                            self.wq_castle = false;
                        } else {
                            self.bq_castle = false;
                        }
                    } else if fc == 7 {
                        if is_white {
                            self.wk_castle = false;
                        } else {
                            self.bk_castle = false;
                        }
                    }
                }
            },
            _ => {},
        }
        let is_pawn = match piece.piece_type {
            PieceType::Pawn => true,
            _ => false,
        };
        self.en_passant = if is_pawn && (mv.to.0 as usize == fr + 2 || mv.to.0 as usize + 2 == fr) {
            Some((((fr + mv.to.0 as usize) / 2) as u8, fc as u8))
        } else {
            None
        };
        if is_pawn || mv.promotion.is_some() || mv.capture.is_some() {
            self.halfmove_clock = 0;
        } else if self.halfmove_clock < u16::MAX {
            self.halfmove_clock = self.halfmove_clock + 1;
        }
        let black_moved = match self.turn {
            PieceColor::Black => true,
            PieceColor::White => false,
        };
        if black_moved && self.fullmove_number < u16::MAX {
            self.fullmove_number = self.fullmove_number + 1;
        }
        self.turn = self.turn.opposite();
        self.is_check = self.king_attacked(self.turn);
        let sig = self.layout();
        self.layouts.push(sig);
        let n = self.layout_count(&self.layouts[self.layouts.len() - 1]);
        proof {
            assert(self.layouts@.drop_last() =~= old(self).layouts@);
            assert(self.history@.drop_last() =~= old(self).history@);
            assert forall|i: int| 0 <= i < self.history@.len() implies record_ok(
                #[trigger] self.history@[i],
            ) by {
                if i < old(self).history@.len() {
                    assert(self.history@[i] == old(self).history@[i]);
                }
            }
        }
        n == 3
    }

    /// Takes back the last move played.
    pub fn rollback_move(&mut self)
        requires
            old(self).valid(),
            old(self).history@.len() > 0,
        ensures
            final(self).valid(),
            old(self).undo_post(*final(self)),
    {
        self.layouts.pop();
        self.turn = self.turn.opposite();
        let h = self.history.pop().unwrap();
        let mv = h.mv;
        proof {
            assert(record_ok(old(self).history@.last()));
        }
        undo_grid(&mut self.squares, &h);
        self.wq_castle = h.wq_castle;
        self.wk_castle = h.wk_castle;
        self.bq_castle = h.bq_castle;
        self.bk_castle = h.bk_castle;
        self.en_passant = h.en_passant;
        self.halfmove_clock = h.halfmove_clock;
        self.fullmove_number = h.fullmove_number;
        self.is_check = h.is_check;
        self.white_king_pos = h.white_king_pos;
        self.black_king_pos = h.black_king_pos;
        proof {
            assert forall|i: int| 0 <= i < self.history@.len() implies record_ok(
                #[trigger] self.history@[i],
            ) by {
                assert(self.history@[i] == old(self).history@[i]);
            }
        }
    }
}

/// Moves the pieces of `mv` on the grid.
#[verifier::rlimit(60)]
pub(crate) fn apply_grid(squares: &mut Vec<Option<Piece>>, fr: usize, fc: usize, mv: &Move)
    requires
        grid_wf(old(squares)@),
        in_bounds(fr as int, fc as int),
        cell_at(old(squares)@, fr as int, fc as int) is Some,
        in_bounds(mv.to.0 as int, mv.to.1 as int),
        mv.castling ==> mv.rook_to is Some && in_bounds(
            mv.rook_to.unwrap().0 as int,
            mv.rook_to.unwrap().1 as int,
        ),
        mv.capture is Some ==> in_bounds(mv.capture.unwrap().row as int, mv.capture.unwrap().col as int),
    ensures
        final(squares)@ == applied_grid(old(squares)@, fr as int, fc as int, *mv),
        grid_wf(final(squares)@),
{
    let ghost g0 = squares@;
    let piece = squares[fr * 8 + fc].unwrap();
    squares.set(fr * 8 + fc, None);
    if mv.castling {
        let rt = mv.rook_to.unwrap();
        let hc: usize = if rt.1 == 5 { 7 } else { 0 };
        match squares[fr * 8 + hc] {
            Some(rook) => {
                squares.set(fr * 8 + hc, None);
                let moved = Piece { piece_type: rook.piece_type, color: rook.color, row: rt.0, col: rt.1 };
                squares.set((rt.0 as usize) * 8 + rt.1 as usize, Some(moved));
            },
            None => {},
        }
    }
    match mv.capture {
        Some(c) => {
            if c.row != mv.to.0 || c.col != mv.to.1 {
                squares.set((c.row as usize) * 8 + c.col as usize, None);
            }
        },
        None => {},
    }
    let placed = match mv.promotion {
        Some(t) => Piece { piece_type: t, color: piece.color, row: mv.to.0, col: mv.to.1 },
        None => Piece { piece_type: piece.piece_type, color: piece.color, row: mv.to.0, col: mv.to.1 },
    };
    squares.set((mv.to.0 as usize) * 8 + mv.to.1 as usize, Some(placed));
    assert(squares@ =~= applied_grid(g0, fr as int, fc as int, *mv));
}

/// Puts the pieces of the move recorded in `h` back.
#[verifier::rlimit(60)]
fn undo_grid(squares: &mut Vec<Option<Piece>>, h: &HistoryData)
    requires
        grid_wf(old(squares)@),
        record_ok(*h),
    ensures
        final(squares)@ == undone_grid(old(squares)@, *h),
        grid_wf(final(squares)@),
{
    let ghost g0 = squares@;
    let mv = h.mv;
    if mv.castling {
        let rt = mv.rook_to.unwrap();
        let at = (rt.0 as usize) * 8 + rt.1 as usize;
        match squares[at] {
            Some(rook) => {
                let hc: u8 = if rt.1 == 5 { 7 } else { 0 };
                squares.set(at, None);
                let back = Piece { piece_type: rook.piece_type, color: rook.color, row: rt.0, col: hc };
                squares.set((rt.0 as usize) * 8 + hc as usize, Some(back));
            },
            None => {},
        }
    }
    let to = (mv.to.0 as usize) * 8 + mv.to.1 as usize;
    let moving = squares[to];
    squares.set(to, None);
    match mv.capture {
        Some(c) => {
            squares.set((c.row as usize) * 8 + c.col as usize, Some(c));
        },
        None => {},
    }
    match moving {
        Some(p) => {
            let t = if mv.promotion.is_some() { PieceType::Pawn } else { p.piece_type };
            let back = Piece { piece_type: t, color: p.color, row: h.starting_row, col: h.starting_col };
            squares.set((h.starting_row as usize) * 8 + h.starting_col as usize, Some(back));
        },
        None => {},
    }
    assert(squares@ =~= undone_grid(g0, *h));
}

impl HistoryData {
    /// The record of `board` as it stands before the piece on `from` makes `mv`.
    pub fn new(board: &Board, from: (u8, u8), mv: &Move) -> (r: Self)
        ensures
            r == board.record_spec(from.0 as int, from.1 as int, *mv),
    {
        HistoryData {
            starting_row: from.0,
            starting_col: from.1,
            mv: *mv,
            wq_castle: board.wq_castle,
            wk_castle: board.wk_castle,
            bq_castle: board.bq_castle,
            bk_castle: board.bk_castle,
            en_passant: board.en_passant,
            halfmove_clock: board.halfmove_clock,
            fullmove_number: board.fullmove_number,
            is_check: board.is_check,
            white_king_pos: board.white_king_pos,
            black_king_pos: board.black_king_pos,
        }
    }
}

fn same_bytes(a: &Vec<u8>, b: &Vec<u8>) -> (r: bool)
    ensures
        r == (a@ == b@),
{
    if a.len() != b.len() {
        return false;
    }
    let mut i: usize = 0;
    while i < a.len()
        invariant
            a@.len() == b@.len(),
            i <= a@.len(),
            a@.take(i as int) == b@.take(i as int),
        decreases a@.len() - i,
    {
        if a[i] != b[i] {
            assert(a@[i as int] != b@[i as int]);
            return false;
        }
        assert(a@.take(i + 1) =~= a@.take(i as int).push(a@[i as int]));
        assert(b@.take(i + 1) =~= b@.take(i as int).push(b@[i as int]));
        i = i + 1;
    }
    assert(a@ =~= a@.take(i as int));
    assert(b@ =~= b@.take(i as int));
    true
}

/// Taking back a move right after playing it restores every part of the position: the
/// grid, the side to move, all rights, the en-passant square, both clocks, the check flag,
/// the cached king squares, the undo records and the placement counts.
pub proof fn lemma_undo_restores(b0: Board, fr: int, fc: int, mv: Move, b1: Board, b2: Board)
    requires
        b0.valid(),
        b0.applicable(fr, fc, mv),
        b0.apply_post(fr, fc, mv, b1),
        b1.undo_post(b2),
    ensures
        b2.same_state(b0),
{
    let g0 = b0.squares@;
    let g1 = b1.squares@;
    let h = b1.history@.last();
    assert(h == b0.record_spec(fr, fc, mv));
    assert(b1.history@.drop_last() =~= b0.history@);
    assert(b2.layouts@ =~= b0.layouts@);
    assert(b2.squares@ =~= g0) by {
        assert forall|i: int| 0 <= i < 64 implies b2.squares@[i] == g0[i] by {
            assert(placed_at(g0[i], i));
        }
    }
}

/// Playing a move never grants a castling right: each right after the move was held before.
pub proof fn lemma_rights_only_cleared(b0: Board, fr: int, fc: int, mv: Move, b1: Board)
    requires
        b0.apply_post(fr, fc, mv, b1),
    ensures
        b1.wk_castle ==> b0.wk_castle,
        b1.wq_castle ==> b0.wq_castle,
        b1.bk_castle ==> b0.bk_castle,
        b1.bq_castle ==> b0.bq_castle,
{
}

/// Each played move adds one undo record and one placement entry, so the placements on record
/// number the moves played plus the starting one.
pub proof fn lemma_counts_follow_moves(b0: Board, fr: int, fc: int, mv: Move, b1: Board)
    requires
        b0.valid(),
        b0.apply_post(fr, fc, mv, b1),
    ensures
        b1.history@.len() == b0.history@.len() + 1,
        b1.layouts@.len() == b1.history@.len() + 1,
{
}

/// A played move counts its resulting placement once more than it had been counted
/// before, so `play_move` reports a third occurrence exactly when the placement had
/// occurred twice already.
pub proof fn lemma_repetition_count(b0: Board, fr: int, fc: int, mv: Move, b1: Board)
    requires
        b0.apply_post(fr, fc, mv, b1),
    ensures
        count_layout(b1.layout_views(), layout_spec(b1.squares@)) == count_layout(
            b0.layout_views(),
            layout_spec(b1.squares@),
        ) + 1,
{
    let sig = layout_spec(b1.squares@);
    assert(b1.layouts@ =~= b0.layouts@.push(b1.layouts@.last()));
    assert(b1.layout_views() =~= b0.layout_views().push(sig));
    assert(b1.layout_views().drop_last() =~= b0.layout_views());
}

} // verus!
