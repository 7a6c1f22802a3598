use vstd::prelude::*;

use crate::piece::{Move, Piece, PieceColor, PieceType};

verus! {

/// What one applied move needs to be taken back.
#[derive(Debug, Clone, Copy)]
pub struct HistoryData {
    pub starting_row: u8,
    pub starting_col: u8,
    pub mv: Move,
    pub wq_castle: bool,
    pub wk_castle: bool,
    pub bq_castle: bool,
    pub bk_castle: bool,
    pub en_passant: Option<(u8, u8)>,
    pub halfmove_clock: u16,
    pub fullmove_number: u16,
    pub is_check: bool,
    pub white_king_pos: (u8, u8),
    pub black_king_pos: (u8, u8),
}

/// Why a game ended in a draw.
#[derive(Debug, Clone, Copy, PartialEq, Eq, Structural)]
pub enum DrawType {
    ThreefoldRepetition,
    FiftyMoveRule,
    InsufficientMaterial,
    Stalemate,
}

/// How a game ended.
#[derive(Debug)]
pub enum GameOutcome {
    /// The side that delivered mate.
    Checkmate(PieceColor),
    Draw(DrawType),
}

/// A chess position with its undo history.
///
/// The grid is stored row by row: square `(row, col)` is cell `row * 8 + col`.
pub struct Board {
    pub squares: Vec<Option<Piece>>,
    pub turn: PieceColor,
    pub wq_castle: bool,
    pub wk_castle: bool,
    pub bq_castle: bool,
    pub bk_castle: bool,
    pub en_passant: Option<(u8, u8)>,
    pub halfmove_clock: u16,
    pub fullmove_number: u16,
    pub is_check: bool,
    pub history: Vec<HistoryData>,
    /// The placement signature of every position reached, the initial one first.
    pub layouts: Vec<Vec<u8>>,
    pub white_king_pos: (u8, u8),
    pub black_king_pos: (u8, u8),
}

pub open spec fn in_bounds(r: int, c: int) -> bool {
    0 <= r < 8 && 0 <= c < 8
}

/// The coordinate `k` steps from `x` in direction `d` (one of -1, 0, 1).
pub open spec fn step(x: int, d: int, k: int) -> int {
    if d == 0 {
        x
    } else if d > 0 {
        x + k
    } else {
        x - k
    }
}

pub open spec fn cell_at(g: Seq<Option<Piece>>, r: int, c: int) -> Option<Piece> {
    g[r * 8 + c]
}

/// A piece stored in cell `i` knows its own square.
pub open spec fn placed_at(o: Option<Piece>, i: int) -> bool {
    match o {
        Some(p) => p.row < 8 && p.col < 8 && p.row * 8 + p.col == i,
        None => true,
    }
}

pub open spec fn grid_wf(g: Seq<Option<Piece>>) -> bool {
    &&& g.len() == 64
    &&& forall|i: int| 0 <= i < 64 ==> placed_at(#[trigger] g[i], i)
}

pub open spec fn is_unit_dir(dr: int, dc: int) -> bool {
    -1 <= dr <= 1 && -1 <= dc <= 1 && !(dr == 0 && dc == 0)
}

/// Whether a piece of kind `t` at distance `k` along a ray in direction `(dr, dc)` attacks
/// the ray's origin: sliders of the ray's family, and a king next to it.
pub open spec fn attacks_along(t: PieceType, dr: int, dc: int, k: int) -> bool {
    if dr == 0 || dc == 0 {
        t == PieceType::Rook || t == PieceType::Queen || (t == PieceType::King && k == 1)
    } else {
        t == PieceType::Bishop || t == PieceType::Queen || (t == PieceType::King && k == 1)
    }
}

/// The attacker found by walking from `(r, c)` in direction `(dr, dc)`, starting at distance
/// `k`: the first occupant that is not the king of `color` is recorded when it is an enemy
/// piece that attacks along this ray. The king of `color` does not block the ray.
pub open spec fn ray_attacker(
    g: Seq<Option<Piece>>,
    r: int,
    c: int,
    dr: int,
    dc: int,
    color: PieceColor,
    k: int,
) -> Seq<(u8, u8)>
    decreases 8 - k,
{
    if k < 1 || k >= 8 || !in_bounds(step(r, dr, k), step(c, dc, k)) {
        seq![]
    } else {
        let rr = step(r, dr, k);
        let cc = step(c, dc, k);
        match cell_at(g, rr, cc) {
            None => ray_attacker(g, r, c, dr, dc, color, k + 1),
            Some(p) => if p.color == color && p.piece_type == PieceType::King {
                ray_attacker(g, r, c, dr, dc, color, k + 1)
            } else if p.color != color && attacks_along(p.piece_type, dr, dc, k) {
                seq![(rr as u8, cc as u8)]
            } else {
                seq![]
            },
        }
    }
}

/// The square `(r + dr, c + dc)`, when it holds an enemy of `color` of kind `t`.
pub open spec fn leaper_attacker(
    g: Seq<Option<Piece>>,
    r: int,
    c: int,
    dr: int,
    dc: int,
    t: PieceType,
    color: PieceColor,
) -> Seq<(u8, u8)> {
    if in_bounds(r + dr, c + dc) && cell_at(g, r + dr, c + dc) is Some && cell_at(
        g,
        r + dr,
        c + dc,
    ).unwrap().piece_type == t && cell_at(g, r + dr, c + dc).unwrap().color != color {
        seq![((r + dr) as u8, (c + dc) as u8)]
    } else {
        seq![]
    }
}

pub open spec fn knight_offset(i: int) -> (int, int) {
    if i == 0 { (1, 2) }
    else if i == 1 { (2, 1) }
    else if i == 2 { (-1, 2) }
    else if i == 3 { (-2, 1) }
    else if i == 4 { (1, -2) }
    else if i == 5 { (2, -1) }
    else if i == 6 { (-1, -2) }
    else { (-2, -1) }
}

/// The eight ray directions: the four orthogonal ones, then the four diagonal ones.
pub open spec fn ray_dir(i: int) -> (int, int) {
    if i == 0 { (1, 0) }
    else if i == 1 { (0, 1) }
    else if i == 2 { (-1, 0) }
    else if i == 3 { (0, -1) }
    else if i == 4 { (1, 1) }
    else if i == 5 { (-1, -1) }
    else if i == 6 { (1, -1) }
    else { (-1, 1) }
}

/// The two squares from which an enemy pawn attacks a square of `color`.
pub open spec fn pawn_offset(color: PieceColor, i: int) -> (int, int) {
    let dr: int = if color == PieceColor::White { -1 } else { 1 };
    if i == 0 { (dr, -1) } else { (dr, 1) }
}

/// Part `i` of the attack scan of a square: eight knight squares, eight rays, two pawn squares.
pub open spec fn attack_part(g: Seq<Option<Piece>>, r: int, c: int, color: PieceColor, i: int) -> Seq<(u8, u8)> {
    if i < 8 {
        leaper_attacker(g, r, c, knight_offset(i).0, knight_offset(i).1, PieceType::Knight, color)
    } else if i < 16 {
        ray_attacker(g, r, c, ray_dir(i - 8).0, ray_dir(i - 8).1, color, 1)
    } else {
        leaper_attacker(g, r, c, pawn_offset(color, i - 16).0, pawn_offset(color, i - 16).1, PieceType::Pawn, color)
    }
}

pub open spec fn attack_parts(g: Seq<Option<Piece>>, r: int, c: int, color: PieceColor, n: int) -> Seq<(u8, u8)>
    decreases n,
{
    if n <= 0 {
        seq![]
    } else {
        attack_parts(g, r, c, color, n - 1) + attack_part(g, r, c, color, n - 1)
    }
}

/// The squares of the enemies of `color` that attack `(r, c)`, in scan order.
pub open spec fn attackers_spec(g: Seq<Option<Piece>>, r: int, c: int, color: PieceColor) -> Seq<(u8, u8)> {
    attack_parts(g, r, c, color, 18)
}

pub open spec fn is_attacked_spec(g: Seq<Option<Piece>>, r: int, c: int, color: PieceColor) -> bool {
    attackers_spec(g, r, c, color).len() > 0
}

/// The first occupant met walking from `(r, c)` in direction `(dr, dc)`, from distance `k` on.
pub open spec fn nearest_piece(g: Seq<Option<Piece>>, r: int, c: int, dr: int, dc: int, k: int) -> Option<Piece>
    decreases 8 - k,
{
    if k < 1 || k >= 8 || !in_bounds(step(r, dr, k), step(c, dc, k)) {
        None
    } else {
        match cell_at(g, step(r, dr, k), step(c, dc, k)) {
            None => nearest_piece(g, r, c, dr, dc, k + 1),
            Some(p) => Some(p),
        }
    }
}

pub open spec fn is_own_king(o: Option<Piece>, color: PieceColor) -> bool {
    o is Some && o.unwrap().color == color && o.unwrap().piece_type == PieceType::King
}

/// An enemy of `color` that slides along rays of direction `(dr, dc)`.
pub open spec fn is_enemy_slider(o: Option<Piece>, color: PieceColor, dr: int, dc: int) -> bool {
    o is Some && o.unwrap().color != color && (o.unwrap().piece_type == PieceType::Queen || (if dr
        == 0 || dc == 0 {
        o.unwrap().piece_type == PieceType::Rook
    } else {
        o.unwrap().piece_type == PieceType::Bishop
    }))
}

/// A piece of `color` on `(r, c)` is pinned along the line of direction `(dr, dc)`: the nearest
/// occupant on one side is its own king, and on the other an enemy slider of that line.
pub open spec fn pinned_spec(g: Seq<Option<Piece>>, r: int, c: int, dr: int, dc: int, color: PieceColor) -> bool {
    let a = nearest_piece(g, r, c, dr, dc, 1);
    let b = nearest_piece(g, r, c, -dr, -dc, 1);
    (is_own_king(a, color) && is_enemy_slider(b, color, dr, dc)) || (is_own_king(b, color)
        && is_enemy_slider(a, color, dr, dc))
}

impl Board {
    pub const ROWS: usize = 8;
    pub const COLS: usize = 8;

    pub open spec fn cell(&self, r: int, c: int) -> Option<Piece> {
        cell_at(self.squares@, r, c)
    }

    /// The grid has 64 cells and every piece in it knows its own square.
    pub open spec fn wf(&self) -> bool {
        grid_wf(self.squares@)
    }

    /// The occupant of `(row, col)`.
    pub fn piece_at(&self, row: usize, col: usize) -> (r: Option<Piece>)
        requires
            self.wf(),
            row < 8,
            col < 8,
        ensures
            r == self.cell(row as int, col as int),
    {
        self.squares[row * 8 + col]
    }

    /// The side to move.
    pub fn turn(&self) -> (r: PieceColor)
        ensures
            r == self.turn,
    {
        self.turn
    }

    /// Whether the side to move is in check.
    pub fn in_check(&self) -> (r: bool)
        ensures
            r == self.is_check,
    {
        self.is_check
    }

    /// Walks one ray from `(row, col)` and appends the attacker it finds, if any.
    fn push_ray_attacker(
        &self,
        row: usize,
        col: usize,
        dr: i32,
        dc: i32,
        color: PieceColor,
        res: &mut Vec<(u8, u8)>,
    )
        requires
            self.wf(),
            row < 8,
            col < 8,
            is_unit_dir(dr as int, dc as int),
        ensures
            final(res)@ == old(res)@ + ray_attacker(
                self.squares@,
                row as int,
                col as int,
                dr as int,
                dc as int,
                color,
                1,
            ),
    {
        let ghost g = self.squares@;
        let mut k: i32 = 1;
        let mut r: i32 = row as i32 + dr;
        let mut c: i32 = col as i32 + dc;
        while 0 <= r && r < 8 && 0 <= c && c < 8
            invariant
                self.wf(),
                g == self.squares@,
                row < 8,
                col < 8,
                is_unit_dir(dr as int, dc as int),
                1 <= k <= 8,
                r == step(row as int, dr as int, k as int),
                c == step(col as int, dc as int, k as int),
                res@ == old(res)@,
                ray_attacker(g, row as int, col as int, dr as int, dc as int, color, 1)
                    == ray_attacker(g, row as int, col as int, dr as int, dc as int, color, k as int),
            decreases 8 - k,
        {
            assert(k < 8);
            let o = self.squares[(r * 8 + c) as usize];
            match o {
                None => {},
                Some(p) => {
                    if p.color == color && p.piece_type == PieceType::King {
                    } else {
                        let along = if dr == 0 || dc == 0 {
                            p.piece_type == PieceType::Rook || p.piece_type == PieceType::Queen
                                || (p.piece_type == PieceType::King && k == 1)
                        } else {
                            p.piece_type == PieceType::Bishop || p.piece_type == PieceType::Queen
                                || (p.piece_type == PieceType::King && k == 1)
                        };
                        if p.color != color && along {
                            res.push((r as u8, c as u8));
                        }
                        return;
                    }
                },
            }
            k = k + 1;
            r = r + dr;
            c = c + dc;
        }
    }

    /// Appends `(row + dr, col + dc)` when it holds an enemy of `color` of kind `t`.
    fn push_leaper_attacker(
        &self,
        row: usize,
        col: usize,
        dr: i32,
        dc: i32,
        t: PieceType,
        color: PieceColor,
        res: &mut Vec<(u8, u8)>,
    )
        requires
            self.wf(),
            row < 8,
            col < 8,
            -2 <= dr <= 2,
            -2 <= dc <= 2,
        ensures
            final(res)@ == old(res)@ + leaper_attacker(
                self.squares@,
                row as int,
                col as int,
                dr as int,
                dc as int,
                t,
                color,
            ),
    {
        let r = row as i32 + dr;
        let c = col as i32 + dc;
        if 0 <= r && r < 8 && 0 <= c && c < 8 {
            match self.squares[(r * 8 + c) as usize] {
                Some(p) => {
                    if p.piece_type == t && p.color != color {
                        res.push((r as u8, c as u8));
                    } else {
                        assert(res@ == old(res)@ + Seq::<(u8, u8)>::empty());
                    }
                },
                None => {
                    assert(res@ == old(res)@ + Seq::<(u8, u8)>::empty());
                },
            }
        } else {
            assert(res@ == old(res)@ + Seq::<(u8, u8)>::empty());
        }
    }

    /// The squares of the enemies of `color` that attack `(row, col)`, in scan order; with
    /// `early_stop`, only the first of them.
    pub fn get_attacking_pieces(&self, row: usize, col: usize, color: &PieceColor, early_stop: bool) -> (res: Vec<(u8, u8)>)
        requires
            self.wf(),
            row < 8,
            col < 8,
        ensures
            !early_stop ==> res@ == attackers_spec(self.squares@, row as int, col as int, *color),
            early_stop ==> res@ == attackers_spec(self.squares@, row as int, col as int, *color).take(
                if is_attacked_spec(self.squares@, row as int, col as int, *color) { 1int } else { 0int },
            ),
    {
        let ghost g = self.squares@;
        let mut res: Vec<(u8, u8)> = Vec::new();
        let mut i: usize = 0;
        while i < 18
            invariant
                self.wf(),
                g == self.squares@,
                row < 8,
                col < 8,
                i <= 18,
                res@ == attack_parts(g, row as int, col as int, *color, i as int),
                early_stop ==> res@.len() == 0,
            decreases 18 - i,
        {
            if i < 8 {
                let (dr, dc) = knight_step(i);
                self.push_leaper_attacker(row, col, dr, dc, PieceType::Knight, *color, &mut res);
            } else if i < 16 {
                let (dr, dc) = ray_step(i - 8);
                self.push_ray_attacker(row, col, dr, dc, *color, &mut res);
            } else {
                let (dr, dc) = pawn_step(*color, i - 16);
                self.push_leaper_attacker(row, col, dr, dc, PieceType::Pawn, *color, &mut res);
            }
            i = i + 1;
            if early_stop && res.len() > 0 {
                proof {
                    lemma_attack_part_len(g, row as int, col as int, *color, i - 1);
                    lemma_attack_parts_prefix(g, row as int, col as int, *color, i as int, 18);
                    let full = attackers_spec(g, row as int, col as int, *color);
                    assert(res@.len() == 1);
                    assert(full.take(1) =~= full.take(res@.len() as int));
                }
                return res;
            }
        }
        res
    }

    /// Whether an enemy of `color` attacks `(row, col)`.
    pub fn is_attacked(&self, row: usize, col: usize, color: &PieceColor) -> (r: bool)
        requires
            self.wf(),
            row < 8,
            col < 8,
        ensures
            r == is_attacked_spec(self.squares@, row as int, col as int, *color),
    {
        let a = self.get_attacking_pieces(row, col, color, true);
        a.len() > 0
    }

    /// The first occupant from `(row, col)` in direction `(dr, dc)`.
    fn nearest_piece(&self, row: usize, col: usize, dr: i32, dc: i32) -> (res: Option<Piece>)
        requires
            self.wf(),
            row < 8,
            col < 8,
            is_unit_dir(dr as int, dc as int),
        ensures
            res == nearest_piece(self.squares@, row as int, col as int, dr as int, dc as int, 1),
    {
        let ghost g = self.squares@;
        let mut k: i32 = 1;
        let mut r: i32 = row as i32 + dr;
        let mut c: i32 = col as i32 + dc;
        while 0 <= r && r < 8 && 0 <= c && c < 8
            invariant
                self.wf(),
                g == self.squares@,
                row < 8,
                col < 8,
                is_unit_dir(dr as int, dc as int),
                1 <= k <= 8,
                r == step(row as int, dr as int, k as int),
                c == step(col as int, dc as int, k as int),
                nearest_piece(g, row as int, col as int, dr as int, dc as int, 1)
                    == nearest_piece(g, row as int, col as int, dr as int, dc as int, k as int),
            decreases 8 - k,
        {
            assert(k < 8);
            let o = self.squares[(r * 8 + c) as usize];
            if o.is_some() {
                return o;
            }
            k = k + 1;
            r = r + dr;
            c = c + dc;
        }
        None
    }

    /// Whether the piece of `color` on `(row, col)` is pinned along the line of `(dr, dc)`.
    fn pinned_along(&self, row: usize, col: usize, dr: i32, dc: i32, color: PieceColor) -> (res: bool)
        requires
            self.wf(),
            row < 8,
            col < 8,
            is_unit_dir(dr as int, dc as int),
        ensures
            res == pinned_spec(self.squares@, row as int, col as int, dr as int, dc as int, color),
    {
        let a = self.nearest_piece(row, col, dr, dc);
        let b = self.nearest_piece(row, col, -dr, -dc);
        let a_king = is_king_of(a, color);
        let b_king = is_king_of(b, color);
        let a_slider = is_slider_against(a, color, dr, dc);
        let b_slider = is_slider_against(b, color, dr, dc);
        (a_king && b_slider) || (b_king && a_slider)
    }

    /// Pinned along its row.
    pub fn row_pin(&self, row: usize, col: usize, color: PieceColor) -> (res: bool)
        requires
            self.wf(),
            row < 8,
            col < 8,
        ensures
            res == pinned_spec(self.squares@, row as int, col as int, 0, 1, color),
    {
        self.pinned_along(row, col, 0, 1, color)
    }

    /// Pinned along its column.
    pub fn col_pin(&self, row: usize, col: usize, color: PieceColor) -> (res: bool)
        requires
            self.wf(),
            row < 8,
            col < 8,
        ensures
            res == pinned_spec(self.squares@, row as int, col as int, 1, 0, color),
    {
        self.pinned_along(row, col, 1, 0, color)
    }

    /// Pinned along the diagonal on which row and column grow together.
    pub fn back_diag_pin(&self, row: usize, col: usize, color: PieceColor) -> (res: bool)
        requires
            self.wf(),
            row < 8,
            col < 8,
        ensures
            res == pinned_spec(self.squares@, row as int, col as int, 1, 1, color),
    {
        self.pinned_along(row, col, 1, 1, color)
    }

    /// Pinned along the diagonal on which the row grows as the column shrinks.
    pub fn forward_diag_pin(&self, row: usize, col: usize, color: PieceColor) -> (res: bool)
        requires
            self.wf(),
            row < 8,
            col < 8,
        ensures
            res == pinned_spec(self.squares@, row as int, col as int, 1, -1, color),
    {
        self.pinned_along(row, col, 1, -1, color)
    }
}

fn is_king_of(o: Option<Piece>, color: PieceColor) -> (r: bool)
    ensures
        r == is_own_king(o, color),
{
    match o {
        Some(p) => p.color == color && p.piece_type == PieceType::King,
        None => false,
    }
}

fn is_slider_against(o: Option<Piece>, color: PieceColor, dr: i32, dc: i32) -> (r: bool)
    ensures
        r == is_enemy_slider(o, color, dr as int, dc as int),
{
    match o {
        Some(p) => p.color != color && (p.piece_type == PieceType::Queen || (if dr == 0 || dc == 0 {
            p.piece_type == PieceType::Rook
        } else {
            p.piece_type == PieceType::Bishop
        })),
        None => false,
    }
}

pub(crate) fn knight_step(i: usize) -> (r: (i32, i32))
    requires
        i < 8,
    ensures
        r.0 == knight_offset(i as int).0,
        r.1 == knight_offset(i as int).1,
{
    match i {
        0 => (1, 2),
        1 => (2, 1),
        2 => (-1, 2),
        3 => (-2, 1),
        4 => (1, -2),
        5 => (2, -1),
        6 => (-1, -2),
        _ => (-2, -1),
    }
}

pub(crate) fn ray_step(i: usize) -> (r: (i32, i32))
    requires
        i < 8,
    ensures
        r.0 == ray_dir(i as int).0,
        r.1 == ray_dir(i as int).1,
        is_unit_dir(r.0 as int, r.1 as int),
{
    match i {
        0 => (1, 0),
        1 => (0, 1),
        2 => (-1, 0),
        3 => (0, -1),
        4 => (1, 1),
        5 => (-1, -1),
        6 => (1, -1),
        _ => (-1, 1),
    }
}

fn pawn_step(color: PieceColor, i: usize) -> (r: (i32, i32))
    requires
        i < 2,
    ensures
        r.0 == pawn_offset(color, i as int).0,
        r.1 == pawn_offset(color, i as int).1,
{
    let dr: i32 = match color {
        PieceColor::White => -1,
        PieceColor::Black => 1,
    };
    if i == 0 {
        (dr, -1)
    } else {
        (dr, 1)
    }
}

proof fn lemma_ray_attacker_len(g: Seq<Option<Piece>>, r: int, c: int, dr: int, dc: int, color: PieceColor, k: int)
    ensures
        ray_attacker(g, r, c, dr, dc, color, k).len() <= 1,
    decreases 8 - k,
{
    if !(k < 1 || k >= 8 || !in_bounds(step(r, dr, k), step(c, dc, k))) {
        lemma_ray_attacker_len(g, r, c, dr, dc, color, k + 1);
    }
}

proof fn lemma_attack_part_len(g: Seq<Option<Piece>>, r: int, c: int, color: PieceColor, i: int)
    ensures
        attack_part(g, r, c, color, i).len() <= 1,
{
    if 8 <= i < 16 {
        lemma_ray_attacker_len(g, r, c, ray_dir(i - 8).0, ray_dir(i - 8).1, color, 1);
    }
}

/// The scan up to part `n` is a prefix of the scan up to part `m`.
proof fn lemma_attack_parts_prefix(g: Seq<Option<Piece>>, r: int, c: int, color: PieceColor, n: int, m: int)
    requires
        0 <= n <= m,
    ensures
        attack_parts(g, r, c, color, m).len() >= attack_parts(g, r, c, color, n).len(),
        attack_parts(g, r, c, color, m).take(attack_parts(g, r, c, color, n).len() as int)
            == attack_parts(g, r, c, color, n),
    decreases m - n,
{
    if n < m {
        lemma_attack_parts_prefix(g, r, c, color, n, m - 1);
        let a = attack_parts(g, r, c, color, m - 1);
        let b = attack_part(g, r, c, color, m - 1);
        let p = attack_parts(g, r, c, color, n);
        assert((a + b).take(p.len() as int) =~= a.take(p.len() as int));
    } else {
        assert(attack_parts(g, r, c, color, m).take(attack_parts(g, r, c, color, n).len() as int)
            =~= attack_parts(g, r, c, color, n));
    }
}

} // verus!
