use vstd::prelude::*;
use vstd::string::*;

use crate::board::{attack_parts, attackers_spec, cell_at, grid_wf, in_bounds, is_attacked_spec, placed_at, ray_attacker, Board};
use crate::piece::{digit, digit_char, fen_char_spec, fen_piece_spec, push_char, Piece, PieceColor, PieceType};
use crate::play::{check_spec, layout_spec};

verus! {

/// Why a board-setup record was refused.
#[derive(Debug, Clone, Copy, PartialEq, Eq, Structural)]
pub enum FenError {
    /// The record does not have six space-separated fields.
    FieldCount,
    /// The placement field holds an unknown letter or runs off the board.
    Placement,
    /// The side to move is neither `w` nor `b`.
    Turn,
    /// The en-passant field is neither `-` nor a square.
    EnPassant,
    /// The halfmove clock is not a number below 65536.
    HalfmoveClock,
    /// The fullmove number is not a number below 65536.
    FullmoveNumber,
}

/// The fields of `s` separated by single spaces.
pub open spec fn fields_of(s: Seq<char>) -> Seq<Seq<char>>
    decreases s.len(),
{
    if s.len() == 0 {
        seq![seq![]]
    } else {
        let f = fields_of(s.drop_last());
        if s.last() == ' ' {
            f.push(seq![])
        } else {
            f.update(f.len() - 1, f.last().push(s.last()))
        }
    }
}

/// The value of a decimal digit.
pub open spec fn dec_digit(ch: char) -> Option<int> {
    if ch == '0' { Some(0) }
    else if ch == '1' { Some(1) }
    else if ch == '2' { Some(2) }
    else if ch == '3' { Some(3) }
    else if ch == '4' { Some(4) }
    else if ch == '5' { Some(5) }
    else if ch == '6' { Some(6) }
    else if ch == '7' { Some(7) }
    else if ch == '8' { Some(8) }
    else if ch == '9' { Some(9) }
    else { None }
}

pub open spec fn all_digits(s: Seq<char>) -> bool {
    forall|i: int| 0 <= i < s.len() ==> (#[trigger] dec_digit(s[i])) is Some
}

pub open spec fn dec_value(s: Seq<char>) -> int
    decreases s.len(),
{
    if s.len() == 0 {
        0
    } else {
        dec_value(s.drop_last()) * 10 + dec_digit(s.last()).unwrap()
    }
}

/// The number that `s` writes, when it is a non-empty run of digits of a value below 65536.
pub open spec fn u16_spec(s: Seq<char>) -> Option<u16> {
    if s.len() > 0 && all_digits(s) && dec_value(s) <= 65535 {
        Some(dec_value(s) as u16)
    } else {
        None
    }
}

pub open spec fn empty_grid() -> Seq<Option<Piece>> {
    Seq::new(64, |i: int| None::<Piece>)
}

/// One character of the placement field read in state `(row, col, grid)`.
pub open spec fn place_step(st: (int, int, Seq<Option<Piece>>), ch: char) -> Option<(int, int, Seq<Option<Piece>>)> {
    let (row, col, g) = st;
    match dec_digit(ch) {
        Some(d) => if 1 <= d <= 8 && col + d <= 8 {
            Some((row, col + d, g))
        } else {
            None
        },
        None => if ch == '/' {
            if row < 7 && col == 8 {
                Some((row + 1, 0, g))
            } else {
                None
            }
        } else {
            match fen_piece_spec(ch) {
                Some((t, c)) => if col < 8 {
                    Some((row, col + 1, g.update(row * 8 + col, Some(Piece { piece_type: t, color: c, row: row as u8, col: col as u8 }))))
                } else {
                    None
                },
                None => None,
            }
        },
    }
}

/// The state after reading the placement field `s` from the top-left square of an empty grid.
pub open spec fn place_run(s: Seq<char>) -> Option<(int, int, Seq<Option<Piece>>)>
    decreases s.len(),
{
    if s.len() == 0 {
        Some((0, 0, empty_grid()))
    } else {
        match place_run(s.drop_last()) {
            Some(st) => place_step(st, s.last()),
            None => None,
        }
    }
}

pub open spec fn file_spec(ch: char) -> Option<u8> {
    if ch == 'a' { Some(0u8) }
    else if ch == 'b' { Some(1u8) }
    else if ch == 'c' { Some(2u8) }
    else if ch == 'd' { Some(3u8) }
    else if ch == 'e' { Some(4u8) }
    else if ch == 'f' { Some(5u8) }
    else if ch == 'g' { Some(6u8) }
    else if ch == 'h' { Some(7u8) }
    else { None }
}

pub open spec fn file_char(c: int) -> char {
    if c == 0 { 'a' }
    else if c == 1 { 'b' }
    else if c == 2 { 'c' }
    else if c == 3 { 'd' }
    else if c == 4 { 'e' }
    else if c == 5 { 'f' }
    else if c == 6 { 'g' }
    else { 'h' }
}

/// The `(row, col)` of a square written as file letter and rank digit; rank 8 is row 0.
pub open spec fn square_spec(f: Seq<char>) -> Option<(u8, u8)> {
    if f.len() == 2 && file_spec(f[0]) is Some && dec_digit(f[1]) is Some && 1 <= dec_digit(
        f[1],
    ).unwrap() <= 8 {
        Some(((8 - dec_digit(f[1]).unwrap()) as u8, file_spec(f[0]).unwrap()))
    } else {
        None
    }
}

/// The name of square `(row, col)`: file letter, then rank digit.
pub open spec fn square_name(row: int, col: int) -> Seq<char> {
    seq![file_char(col), digit_char(8 - row)]
}

/// The grid that a placement field describes: eight ranks, each of exactly eight squares.
pub open spec fn placement_spec(s: Seq<char>) -> Option<Seq<Option<Piece>>> {
    match place_run(s) {
        Some((row, col, g)) => if row == 7 && col == 8 {
            Some(g)
        } else {
            None
        },
        None => None,
    }
}

/// The first fault of a board-setup record, if it has one.
pub open spec fn fen_error_spec(s: Seq<char>) -> Option<FenError> {
    let f = fields_of(s);
    if f.len() != 6 {
        Some(FenError::FieldCount)
    } else if placement_spec(f[0]) is None {
        Some(FenError::Placement)
    } else if f[1] != seq!['w'] && f[1] != seq!['b'] {
        Some(FenError::Turn)
    } else if f[3] != seq!['-'] && square_spec(f[3]) is None {
        Some(FenError::EnPassant)
    } else if u16_spec(f[4]) is None {
        Some(FenError::HalfmoveClock)
    } else if u16_spec(f[5]) is None {
        Some(FenError::FullmoveNumber)
    } else {
        None
    }
}

/// The text of one rank from column `c` on, with `empty` empty squares pending before it.
pub open spec fn rank_text(g: Seq<Option<Piece>>, row: int, c: int, empty: int) -> Seq<char>
    decreases 8 - c,
{
    let pending = if empty > 0 { seq![digit_char(empty)] } else { Seq::<char>::empty() };
    if c >= 8 {
        pending
    } else {
        match g[row * 8 + c] {
            None => rank_text(g, row, c + 1, empty + 1),
            Some(p) => pending + seq![fen_char_spec(p.color, p.piece_type)] + rank_text(g, row, c + 1, 0),
        }
    }
}

/// The placement field of the first `n` ranks, separated by `/`.
pub open spec fn placement_text(g: Seq<Option<Piece>>, n: int) -> Seq<char>
    decreases n,
{
    if n <= 0 {
        seq![]
    } else if n == 1 {
        rank_text(g, 0, 0, 0)
    } else {
        placement_text(g, n - 1) + seq!['/'] + rank_text(g, n - 1, 0, 0)
    }
}

proof fn lemma_fields_nonempty(s: Seq<char>)
    ensures
        fields_of(s).len() >= 1,
    decreases s.len(),
{
    if s.len() > 0 {
        lemma_fields_nonempty(s.drop_last());
    }
}

/// The characters of `s`.
fn chars_of(s: &str) -> (r: Vec<char>)
    ensures
        r@ == s@,
{
    let n = s.unicode_len();
    let mut r: Vec<char> = Vec::new();
    let mut i: usize = 0;
    while i < n
        invariant
            n == s@.len(),
            i <= n,
            r@ == s@.take(i as int),
        decreases n - i,
    {
        r.push(s.get_char(i));
        i = i + 1;
        assert(r@ =~= s@.take(i as int));
    }
    assert(r@ =~= s@);
    r
}

/// Splits `s` at each space.
fn split_fields(s: &Vec<char>) -> (r: Vec<Vec<char>>)
    ensures
        r@.map_values(|v: Vec<char>| v@) == fields_of(s@),
{
    let mut fields: Vec<Vec<char>> = Vec::new();
    let mut cur: Vec<char> = Vec::new();
    let mut i: usize = 0;
    while i < s.len()
        invariant
            i <= s@.len(),
            fields@.map_values(|v: Vec<char>| v@).push(cur@) == fields_of(s@.take(i as int)),
        decreases s@.len() - i,
    {
        let ch = s[i];
        let ghost before = fields@.map_values(|v: Vec<char>| v@);
        let ghost cur0 = cur@;
        proof {
            assert(s@.take(i + 1).drop_last() =~= s@.take(i as int));
            lemma_fields_nonempty(s@.take(i as int));
        }
        if ch == ' ' {
            let done = cur;
            cur = Vec::new();
            fields.push(done);
            assert(fields@.map_values(|v: Vec<char>| v@) =~= before.push(cur0));
            assert(fields@.map_values(|v: Vec<char>| v@).push(cur@) =~= fields_of(s@.take(i + 1)));
        } else {
            cur.push(ch);
            assert(fields@.map_values(|v: Vec<char>| v@).push(cur@) =~= before.push(cur0).update(
                before.len() as int,
                cur0.push(ch),
            ));
        }
        i = i + 1;
    }
    assert(s@.take(i as int) =~= s@);
    fields.push(cur);
    let ghost fv = fields@.map_values(|v: Vec<char>| v@);
    assert(fv =~= fields_of(s@));
    fields
}

fn dec_digit_exec(ch: char) -> (r: Option<u8>)
    ensures
        r is Some == dec_digit(ch) is Some,
        r is Some ==> r.unwrap() as int == dec_digit(ch).unwrap() && r.unwrap() < 10,
{
    match ch {
        '0' => Some(0),
        '1' => Some(1),
        '2' => Some(2),
        '3' => Some(3),
        '4' => Some(4),
        '5' => Some(5),
        '6' => Some(6),
        '7' => Some(7),
        '8' => Some(8),
        '9' => Some(9),
        _ => None,
    }
}

/// Reads a non-empty run of digits as a number below 65536.
fn parse_u16(s: &Vec<char>) -> (r: Option<u16>)
    ensures
        r == u16_spec(s@),
{
    if s.len() == 0 {
        return None;
    }
    let mut v: u32 = 0;
    let mut i: usize = 0;
    while i < s.len()
        invariant
            i <= s@.len(),
            s@.len() > 0,
            v == dec_value(s@.take(i as int)),
            v <= 65535,
            all_digits(s@.take(i as int)),
        decreases s@.len() - i,
    {
        let d = dec_digit_exec(s[i]);
        proof {
            assert(s@.take(i + 1).drop_last() =~= s@.take(i as int));
        }
        match d {
            None => {
                assert(!all_digits(s@)) by {
                    assert(dec_digit(s@[i as int]) is None);
                }
                return None;
            },
            Some(d) => {
                v = v * 10 + d as u32;
                i = i + 1;
                assert(all_digits(s@.take(i as int))) by {
                    assert forall|j: int| 0 <= j < i implies (#[trigger] dec_digit(s@.take(i as int)[j])) is Some by {
                        if j < i - 1 {
                            assert(s@.take(i as int)[j] == s@.take(i - 1)[j]);
                        }
                    }
                }
                if v > 65535 {
                    proof {
                        if all_digits(s@) {
                            lemma_dec_value_grows(s@, i as int);
                        }
                    }
                    return None;
                }
            },
        }
    }
    assert(s@.take(i as int) =~= s@);
    Some(v as u16)
}

proof fn lemma_dec_value_grows(s: Seq<char>, i: int)
    requires
        0 < i <= s.len(),
        all_digits(s),
    ensures
        dec_value(s) >= dec_value(s.take(i)),
    decreases s.len() - i,
{
    if i < s.len() {
        lemma_dec_value_grows(s, i + 1);
        assert(s.take(i + 1).drop_last() =~= s.take(i));
        lemma_dec_value_nonneg(s.take(i));
        assert(dec_digit(s[i]) is Some);
    } else {
        assert(s.take(i) =~= s);
    }
}

proof fn lemma_dec_value_nonneg(s: Seq<char>)
    requires
        all_digits(s),
    ensures
        dec_value(s) >= 0,
    decreases s.len(),
{
    if s.len() > 0 {
        assert(all_digits(s.drop_last())) by {
            assert forall|j: int| 0 <= j < s.len() - 1 implies (#[trigger] dec_digit(s.drop_last()[j])) is Some by {
                assert(s.drop_last()[j] == s[j]);
            }
        }
        lemma_dec_value_nonneg(s.drop_last());
        assert(dec_digit(s[s.len() - 1]) is Some);
    }
}

fn file_exec(ch: char) -> (r: Option<u8>)
    ensures
        r == file_spec(ch),
{
    match ch {
        'a' => Some(0),
        'b' => Some(1),
        'c' => Some(2),
        'd' => Some(3),
        'e' => Some(4),
        'f' => Some(5),
        'g' => Some(6),
        'h' => Some(7),
        _ => None,
    }
}

/// Reads a square written as file letter and rank digit.
fn square_of(f: &Vec<char>) -> (r: Option<(u8, u8)>)
    ensures
        r == square_spec(f@),
{
    if f.len() != 2 {
        return None;
    }
    match (file_exec(f[0]), dec_digit_exec(f[1])) {
        (Some(c), Some(d)) => {
            if 1 <= d && d <= 8 {
                Some((8 - d, c))
            } else {
                None
            }
        },
        _ => None,
    }
}

/// Reads the placement field into a grid.
fn parse_placement(s: &Vec<char>) -> (r: Option<Vec<Option<Piece>>>)
    ensures
        r is Some == placement_spec(s@) is Some,
        r is Some ==> r.unwrap()@ == placement_spec(s@).unwrap() && grid_wf(r.unwrap()@),
{
    let mut g: Vec<Option<Piece>> = Vec::new();
    let mut k: usize = 0;
    while k < 64
        invariant
            k <= 64,
            g@ == empty_grid().take(k as int),
        decreases 64 - k,
    {
        g.push(None);
        k = k + 1;
        assert(g@ =~= empty_grid().take(k as int));
    }
    assert(g@ =~= empty_grid());
    let mut row: usize = 0;
    let mut col: usize = 0;
    let mut i: usize = 0;
    while i < s.len()
        invariant
            i <= s@.len(),
            place_run(s@.take(i as int)) == Some((row as int, col as int, g@)),
            row < 8,
            col <= 8,
            grid_wf(g@),
        decreases s@.len() - i,
    {
        let ch = s[i];
        proof {
            assert(s@.take(i + 1).drop_last() =~= s@.take(i as int));
        }
        match dec_digit_exec(ch) {
            Some(d) => {
                if 1 <= d && d <= 8 && col + (d as usize) <= 8 {
                    col = col + d as usize;
                } else {
                    proof { lemma_place_run_fails(s@, i as int + 1); }
                    return None;
                }
            },
            None => {
                if ch == '/' {
                    if row < 7 && col == 8 {
                        row = row + 1;
                        col = 0;
                    } else {
                        proof { lemma_place_run_fails(s@, i as int + 1); }
                        return None;
                    }
                } else {
                    match Piece::from_fen(ch, row as u8, col as u8) {
                        Some(p) => {
                            if col < 8 {
                                g.set(row * 8 + col, Some(p));
                                col = col + 1;
                            } else {
                                proof { lemma_place_run_fails(s@, i as int + 1); }
                                return None;
                            }
                        },
                        None => {
                            proof { lemma_place_run_fails(s@, i as int + 1); }
                            return None;
                        },
                    }
                }
            },
        }
        i = i + 1;
    }
    assert(s@.take(i as int) =~= s@);
    if row == 7 && col == 8 {
        Some(g)
    } else {
        None
    }
}

/// Once reading a prefix fails, reading the whole field fails.
proof fn lemma_place_run_fails(s: Seq<char>, i: int)
    requires
        0 <= i <= s.len(),
        place_run(s.take(i)) is None,
    ensures
        place_run(s) is None,
    decreases s.len() - i,
{
    if i < s.len() {
        assert(s.take(i + 1).drop_last() =~= s.take(i));
        lemma_place_run_fails(s, i + 1);
    } else {
        assert(s.take(i) =~= s);
    }
}

/// Whether `f` holds the character `ch`.
fn has_char(f: &Vec<char>, ch: char) -> (r: bool)
    ensures
        r == f@.contains(ch),
{
    let mut i: usize = 0;
    while i < f.len()
        invariant
            i <= f@.len(),
            forall|j: int| 0 <= j < i ==> f@[j] != ch,
        decreases f@.len() - i,
    {
        if f[i] == ch {
            assert(f@[i as int] == ch);
            return true;
        }
        i = i + 1;
    }
    false
}

fn is_single(f: &Vec<char>, ch: char) -> (r: bool)
    ensures
        r == (f@ == seq![ch]),
{
    if f.len() == 1 && f[0] == ch {
        assert(f@ =~= seq![ch]);
        true
    } else {
        false
    }
}

/// The standard starting grid.
pub open spec fn start_grid() -> Seq<Option<Piece>> {
    Seq::new(64, |i: int| start_cell(i / 8, i % 8))
}

pub open spec fn back_rank_kind(c: int) -> PieceType {
    if c == 0 || c == 7 { PieceType::Rook }
    else if c == 1 || c == 6 { PieceType::Knight }
    else if c == 2 || c == 5 { PieceType::Bishop }
    else if c == 3 { PieceType::Queen }
    else { PieceType::King }
}

pub open spec fn start_cell(r: int, c: int) -> Option<Piece> {
    if r == 0 {
        Some(Piece { piece_type: back_rank_kind(c), color: PieceColor::Black, row: 0, col: c as u8 })
    } else if r == 1 {
        Some(Piece { piece_type: PieceType::Pawn, color: PieceColor::Black, row: 1, col: c as u8 })
    } else if r == 6 {
        Some(Piece { piece_type: PieceType::Pawn, color: PieceColor::White, row: 6, col: c as u8 })
    } else if r == 7 {
        Some(Piece { piece_type: back_rank_kind(c), color: PieceColor::White, row: 7, col: c as u8 })
    } else {
        None
    }
}

fn back_rank_exec(c: u8) -> (r: PieceType)
    ensures
        r == back_rank_kind(c as int),
{
    if c == 0 || c == 7 {
        PieceType::Rook
    } else if c == 1 || c == 6 {
        PieceType::Knight
    } else if c == 2 || c == 5 {
        PieceType::Bishop
    } else if c == 3 {
        PieceType::Queen
    } else {
        PieceType::King
    }
}

impl Board {
    /// A position with the given grid and state, its check flag and king squares worked out,
    /// no history, and its placement recorded once.
    fn from_parts(
        squares: Vec<Option<Piece>>,
        turn: PieceColor,
        castles: (bool, bool, bool, bool),
        en_passant: Option<(u8, u8)>,
        halfmove_clock: u16,
        fullmove_number: u16,
    ) -> (b: Board)
        requires
            grid_wf(squares@),
        ensures
            b.valid(),
            b.squares@ == squares@,
            b.turn == turn,
            (b.wq_castle, b.wk_castle, b.bq_castle, b.bk_castle) == castles,
            b.en_passant == en_passant,
            b.halfmove_clock == halfmove_clock,
            b.fullmove_number == fullmove_number,
            b.history@.len() == 0,
            b.layouts@.len() == 1,
            b.layouts@[0]@ == layout_spec(squares@),
            b.is_check == check_spec(squares@, b.king_pos_spec(turn), turn),
            b.king_cache_ok(PieceColor::White),
            b.king_cache_ok(PieceColor::Black),
    {
        let (wq_castle, wk_castle, bq_castle, bk_castle) = castles;
        let mut b = Board {
            squares,
            turn,
            wq_castle,
            wk_castle,
            bq_castle,
            bk_castle,
            en_passant,
            halfmove_clock,
            fullmove_number,
            is_check: false,
            history: Vec::new(),
            layouts: Vec::new(),
            white_king_pos: (9, 9),
            black_king_pos: (9, 9),
        };
        let wk = b.king_coords(&PieceColor::White);
        let bk = b.king_coords(&PieceColor::Black);
        b.white_king_pos = wk;
        b.black_king_pos = bk;
        b.is_check = b.king_attacked(turn);
        let sig = b.layout();
        b.layouts.push(sig);
        b
    }

    /// The standard starting position, White to move.
    pub fn new() -> (b: Board)
        ensures
            b.valid(),
            b.squares@ == start_grid(),
            b.turn == PieceColor::White,
            b.wq_castle && b.wk_castle && b.bq_castle && b.bk_castle,
            b.en_passant is None,
            b.halfmove_clock == 0,
            b.fullmove_number == 1,
            b.history@.len() == 0,
            b.layouts@.len() == 1,
            b.layouts@[0]@ == layout_spec(start_grid()),
            !b.is_check,
            b.king_cache_ok(PieceColor::White),
            b.king_cache_ok(PieceColor::Black),
    {
        let mut g: Vec<Option<Piece>> = Vec::new();
        let mut i: usize = 0;
        while i < 64
            invariant
                i <= 64,
                g@ == start_grid().take(i as int),
            decreases 64 - i,
        {
            let r = (i / 8) as u8;
            let c = (i % 8) as u8;
            let cell = if r == 0 {
                Some(Piece { piece_type: back_rank_exec(c), color: PieceColor::Black, row: 0, col: c })
            } else if r == 1 {
                Some(Piece { piece_type: PieceType::Pawn, color: PieceColor::Black, row: 1, col: c })
            } else if r == 6 {
                Some(Piece { piece_type: PieceType::Pawn, color: PieceColor::White, row: 6, col: c })
            } else if r == 7 {
                Some(Piece { piece_type: back_rank_exec(c), color: PieceColor::White, row: 7, col: c })
            } else {
                None
            };
            g.push(cell);
            i = i + 1;
            assert(g@ =~= start_grid().take(i as int));
        }
        assert(g@ =~= start_grid());
        assert(grid_wf(g@)) by {
            assert forall|j: int| 0 <= j < 64 implies placed_at(#[trigger] g@[j], j) by {
                assert(g@[j] == start_cell(j / 8, j % 8));
            }
        }
        let b = Board::from_parts(g, PieceColor::White, (true, true, true, true), None, 0, 1);
        proof {
            lemma_start_king_safe();
            assert(start_grid()[60int] == start_cell(7, 4));
            let k = b.white_king_pos;
            let kr = k.0 as int;
            let kc = k.1 as int;
            if in_bounds(kr, kc) {
                assert((kr * 8 + kc) / 8 == kr && (kr * 8 + kc) % 8 == kc) by (nonlinear_arith)
                    requires
                        0 <= kr < 8,
                        0 <= kc < 8,
                ;
                assert(start_grid()[kr * 8 + kc] == start_cell(kr, kc));
            } else {
                assert(cell_at(start_grid(), 7, 4) == start_cell(7, 4));
            }
            assert(b.white_king_pos == (7u8, 4u8));
        }
        b
    }

    /// Reads a board-setup record: placement, side to move, castling rights, en-passant
    /// square, halfmove clock and fullmove number, separated by single spaces.
    pub fn from_fen(fen: &str) -> (r: Result<Board, FenError>)
        ensures
            r is Err <==> fen_error_spec(fen@) is Some,
            r is Err ==> r->Err_0 == fen_error_spec(fen@).unwrap(),
            r is Ok ==> ({
                let b = r->Ok_0;
                let f = fields_of(fen@);
                &&& b.valid()
                &&& b.squares@ == placement_spec(f[0]).unwrap()
                &&& b.turn == (if f[1] == seq!['w'] { PieceColor::White } else { PieceColor::Black })
                &&& b.wq_castle == f[2].contains('Q')
                &&& b.wk_castle == f[2].contains('K')
                &&& b.bq_castle == f[2].contains('q')
                &&& b.bk_castle == f[2].contains('k')
                &&& b.en_passant == (if f[3] == seq!['-'] { None } else { square_spec(f[3]) })
                &&& b.halfmove_clock == u16_spec(f[4]).unwrap()
                &&& b.fullmove_number == u16_spec(f[5]).unwrap()
                &&& b.history@.len() == 0
                &&& b.layouts@.len() == 1
                &&& b.layouts@[0]@ == layout_spec(b.squares@)
                &&& b.is_check == check_spec(b.squares@, b.king_pos_spec(b.turn), b.turn)
                &&& b.king_cache_ok(PieceColor::White)
                &&& b.king_cache_ok(PieceColor::Black)
            }),
    {
        let chars = chars_of(fen);
        let parts = split_fields(&chars);
        let ghost f = fields_of(fen@);
        proof {
            assert(parts@.map_values(|v: Vec<char>| v@).len() == parts@.len());
        }
        if parts.len() != 6 {
            return Err(FenError::FieldCount);
        }
        proof {
            assert forall|j: int| 0 <= j < 6 implies #[trigger] parts@[j]@ == f[j] by {
                assert(parts@.map_values(|v: Vec<char>| v@)[j] == parts@[j]@);
            }
        }
        let squares = match parse_placement(&parts[0]) {
            Some(g) => g,
            None => {
                return Err(FenError::Placement);
            },
        };
        let turn = if is_single(&parts[1], 'w') {
            PieceColor::White
        } else if is_single(&parts[1], 'b') {
            PieceColor::Black
        } else {
            return Err(FenError::Turn);
        };
        let castles = (
            has_char(&parts[2], 'Q'),
            has_char(&parts[2], 'K'),
            has_char(&parts[2], 'q'),
            has_char(&parts[2], 'k'),
        );
        let en_passant = if is_single(&parts[3], '-') {
            None
        } else {
            match square_of(&parts[3]) {
                Some(sq) => Some(sq),
                None => {
                    return Err(FenError::EnPassant);
                },
            }
        };
        let halfmove_clock = match parse_u16(&parts[4]) {
            Some(v) => v,
            None => {
                return Err(FenError::HalfmoveClock);
            },
        };
        let fullmove_number = match parse_u16(&parts[5]) {
            Some(v) => v,
            None => {
                return Err(FenError::FullmoveNumber);
            },
        };
        Ok(Board::from_parts(squares, turn, castles, en_passant, halfmove_clock, fullmove_number))
    }

    /// Reads a square written as file letter and rank digit (`e3`) as `(row, col)`.
    pub fn coords_to_u8(coords: &str) -> (r: Option<(u8, u8)>)
        ensures
            r == square_spec(coords@),
    {
        let chars = chars_of(coords);
        square_of(&chars)
    }

    /// The name of square `(row, col)`, as file letter and rank digit.
    pub fn u8_coords_to_str(coords: (u8, u8)) -> (r: String)
        requires
            in_bounds(coords.0 as int, coords.1 as int),
        ensures
            r@ == square_name(coords.0 as int, coords.1 as int),
    {
        let files = ['a', 'b', 'c', 'd', 'e', 'f', 'g', 'h'];
        let mut s = String::new();
        push_char(&mut s, files[coords.1 as usize]);
        push_char(&mut s, digit(8 - coords.0));
        proof {
            assert(files@[coords.1 as int] == file_char(coords.1 as int));
        }
        assert(s@ =~= square_name(coords.0 as int, coords.1 as int));
        s
    }

    /// The placement field of this position, as board-setup notation writes it.
    pub fn to_fen_board(&self) -> (r: String)
        requires
            self.wf(),
        ensures
            r@ == placement_text(self.squares@, 8),
    {
        let ghost g = self.squares@;
        let mut res = String::new();
        let mut row: usize = 0;
        while row < 8
            invariant
                self.wf(),
                g == self.squares@,
                row <= 8,
                res@ == placement_text(g, row as int),
            decreases 8 - row,
        {
            if row > 0 {
                push_char(&mut res, '/');
            }
            let ghost base = res@;
            let mut empty: u8 = 0;
            let mut col: usize = 0;
            while col < 8
                invariant
                    self.wf(),
                    g == self.squares@,
                    row < 8,
                    col <= 8,
                    empty <= col,
                    res@ + rank_text(g, row as int, col as int, empty as int) == base + rank_text(g, row as int, 0, 0),
                decreases 8 - col,
            {
                match self.squares[row * 8 + col] {
                    Some(p) => {
                        let ghost before = res@;
                        if empty > 0 {
                            push_char(&mut res, digit(empty));
                        }
                        push_char(&mut res, p.to_fen());
                        proof {
                            let pending = if empty > 0 { seq![digit_char(empty as int)] } else { Seq::<char>::empty() };
                            assert(res@ =~= before + pending + seq![fen_char_spec(p.color, p.piece_type)]);
                            assert(res@ + rank_text(g, row as int, col + 1, 0) =~= before + (pending
                                + seq![fen_char_spec(p.color, p.piece_type)] + rank_text(g, row as int, col + 1, 0)));
                        }
                        empty = 0;
                    },
                    None => {
                        empty = empty + 1;
                    },
                }
                col = col + 1;
            }
            if empty > 0 {
                push_char(&mut res, digit(empty));
            }
            proof {
                assert(res@ =~= base + rank_text(g, row as int, 0, 0));
                if row == 0 {
                    assert(base =~= Seq::<char>::empty());
                    assert(res@ =~= placement_text(g, 1));
                } else {
                    assert(res@ =~= placement_text(g, row + 1));
                }
            }
            row = row + 1;
        }
        res
    }
}

/// Reading the name of a square gives the square back.
pub proof fn lemma_square_name_round_trip(row: int, col: int)
    requires
        in_bounds(row, col),
    ensures
        square_spec(square_name(row, col)) == Some((row as u8, col as u8)),
{
}

/// Reading `s` on from state `st`.
pub open spec fn run_from(st: Option<(int, int, Seq<Option<Piece>>)>, s: Seq<char>) -> Option<(int, int, Seq<Option<Piece>>)>
    decreases s.len(),
{
    if s.len() == 0 {
        st
    } else {
        match run_from(st, s.drop_last()) {
            Some(x) => place_step(x, s.last()),
            None => None,
        }
    }
}

/// `h` holds the pieces of `g` on the first `n` cells and nothing after them.
pub open spec fn filled_up_to(g: Seq<Option<Piece>>, h: Seq<Option<Piece>>, n: int) -> bool {
    &&& h.len() == 64
    &&& forall|i: int| 0 <= i < 64 ==> (#[trigger] h[i] == if i < n { g[i] } else { None::<Piece> })
}

proof fn lemma_run_one(st: (int, int, Seq<Option<Piece>>), ch: char)
    ensures
        run_from(Some(st), seq![ch]) == place_step(st, ch),
{
    assert(seq![ch].drop_last() =~= Seq::<char>::empty());
    assert(run_from(Some(st), seq![ch].drop_last()) == Some(st));
}

proof fn lemma_place_run_is_run_from(s: Seq<char>)
    ensures
        place_run(s) == run_from(Some((0, 0, empty_grid())), s),
    decreases s.len(),
{
    if s.len() > 0 {
        lemma_place_run_is_run_from(s.drop_last());
    }
}

proof fn lemma_run_from_concat(st: Option<(int, int, Seq<Option<Piece>>)>, a: Seq<char>, b: Seq<char>)
    ensures
        run_from(st, a + b) == run_from(run_from(st, a), b),
    decreases b.len(),
{
    if b.len() == 0 {
        assert(a + b =~= a);
    } else {
        assert((a + b).drop_last() =~= a + b.drop_last());
        assert((a + b).last() == b.last());
        lemma_run_from_concat(st, a, b.drop_last());
    }
}

/// Reading the text of rank `r` from column `c`, with `e` empty squares pending, fills the
/// rest of the rank.
proof fn lemma_rank_round_trip(g: Seq<Option<Piece>>, h: Seq<Option<Piece>>, r: int, c: int, e: int)
    requires
        grid_wf(g),
        0 <= r < 8,
        0 <= e <= c <= 8,
        filled_up_to(g, h, r * 8 + c - e),
        forall|j: int| c - e <= j < c ==> #[trigger] g[r * 8 + j] is None,
    ensures
        exists|h2: Seq<Option<Piece>>| run_from(Some((r, c - e, h)), rank_text(g, r, c, e)) == Some((r, 8int, h2))
            && #[trigger] filled_up_to(g, h2, r * 8 + 8),
    decreases 8 - c,
{
    let pending = if e > 0 { seq![digit_char(e)] } else { Seq::<char>::empty() };
    let st = Some((r, c - e, h));
    let after = Some((r, c, h));
    assert(run_from(st, pending) == after) by {
        if e > 0 {
            lemma_run_one((r, c - e, h), digit_char(e));
        } else {
            assert(pending.len() == 0);
        }
    }
    if c >= 8 {
        assert(filled_up_to(g, h, r * 8 + 8)) by {
            assert forall|i: int| 0 <= i < 64 implies (#[trigger] h[i] == if i < r * 8 + 8 { g[i] } else { None::<Piece> }) by {
                if r * 8 + c - e <= i < r * 8 + 8 {
                    assert(g[r * 8 + (i - r * 8)] is None);
                }
            }
        }
    } else {
        match g[r * 8 + c] {
            None => {
                lemma_rank_round_trip(g, h, r, c + 1, e + 1);
            },
            Some(p) => {
                assert(placed_at(g[r * 8 + c], r * 8 + c));
                let ch = fen_char_spec(p.color, p.piece_type);
                let h1 = h.update(r * 8 + c, Some(p));
                assert(place_step((r, c, h), ch) == Some((r, c + 1, h1)));
                lemma_run_one((r, c, h), ch);
                assert(filled_up_to(g, h1, r * 8 + c + 1)) by {
                    assert forall|i: int| 0 <= i < 64 implies (#[trigger] h1[i] == if i < r * 8 + c + 1 { g[i] } else { None::<Piece> }) by {
                        if r * 8 + c - e <= i < r * 8 + c {
                            assert(g[r * 8 + (i - r * 8)] is None);
                        }
                    }
                }
                lemma_rank_round_trip(g, h1, r, c + 1, 0);
                let rest = rank_text(g, r, c + 1, 0);
                lemma_run_from_concat(st, pending, seq![ch]);
                lemma_run_from_concat(st, pending + seq![ch], rest);
            },
        }
    }
}

proof fn lemma_placement_prefix(g: Seq<Option<Piece>>, n: int)
    requires
        grid_wf(g),
        1 <= n <= 8,
    ensures
        exists|h: Seq<Option<Piece>>| run_from(Some((0, 0, empty_grid())), placement_text(g, n)) == Some((n - 1, 8int, h))
            && #[trigger] filled_up_to(g, h, n * 8),
    decreases n,
{
    assert(filled_up_to(g, empty_grid(), 0));
    if n == 1 {
        lemma_rank_round_trip(g, empty_grid(), 0, 0, 0);
        let h2 = choose|h2: Seq<Option<Piece>>| run_from(Some((0int, 0int, empty_grid())), rank_text(g, 0, 0, 0))
            == Some((0int, 8int, h2)) && #[trigger] filled_up_to(g, h2, 8);
        assert(placement_text(g, 1) == rank_text(g, 0, 0, 0));
        assert(run_from(Some((0, 0, empty_grid())), placement_text(g, n)) == Some((n - 1, 8int, h2))
            && filled_up_to(g, h2, n * 8));
    } else {
        lemma_placement_prefix(g, n - 1);
        let h = choose|h: Seq<Option<Piece>>| run_from(Some((0, 0, empty_grid())), placement_text(g, n - 1))
            == Some((n - 2, 8int, h)) && #[trigger] filled_up_to(g, h, (n - 1) * 8);
        let init = Some((0int, 0int, empty_grid()));
        let a = placement_text(g, n - 1);
        lemma_run_from_concat(init, a, seq!['/']);
        lemma_run_one((n - 2, 8int, h), '/');
        lemma_rank_round_trip(g, h, n - 1, 0, 0);
        lemma_run_from_concat(init, a + seq!['/'], rank_text(g, n - 1, 0, 0));
        let h2 = choose|h2: Seq<Option<Piece>>| run_from(Some((n - 1, 0int, h)), rank_text(g, n - 1, 0, 0))
            == Some((n - 1, 8int, h2)) && #[trigger] filled_up_to(g, h2, (n - 1) * 8 + 8);
        assert(placement_text(g, n) == a + seq!['/'] + rank_text(g, n - 1, 0, 0));
        assert(run_from(Some((0, 0, empty_grid())), placement_text(g, n)) == Some((n - 1, 8int, h2))
            && filled_up_to(g, h2, n * 8));
    }
}

/// Reading back the placement field written for a grid gives that grid.
pub proof fn lemma_placement_round_trip(g: Seq<Option<Piece>>)
    requires
        grid_wf(g),
    ensures
        place_run(placement_text(g, 8)) == Some((7int, 8int, g)),
        placement_spec(placement_text(g, 8)) == Some(g),
{
    lemma_placement_prefix(g, 8);
    lemma_place_run_is_run_from(placement_text(g, 8));
    let h = choose|h: Seq<Option<Piece>>| run_from(Some((0, 0, empty_grid())), placement_text(g, 8)) == Some((7int, 8int, h))
        && #[trigger] filled_up_to(g, h, 64);
    assert(h =~= g);
}

/// In the starting position no enemy piece attacks the white king's square.
proof fn lemma_start_king_safe()
    ensures
        !is_attacked_spec(start_grid(), 7, 4, PieceColor::White),
{
    let g = start_grid();
    reveal_with_fuel(attack_parts, 19);
    reveal_with_fuel(ray_attacker, 3);
    assert(cell_at(g, 6, 4) == start_cell(6, 4));
    assert(cell_at(g, 6, 3) == start_cell(6, 3));
    assert(cell_at(g, 6, 5) == start_cell(6, 5));
    assert(cell_at(g, 7, 3) == start_cell(7, 3));
    assert(cell_at(g, 7, 5) == start_cell(7, 5));
    assert(cell_at(g, 5, 3) == start_cell(5, 3));
    assert(cell_at(g, 5, 5) == start_cell(5, 5));
    assert(cell_at(g, 6, 2) == start_cell(6, 2));
    assert(cell_at(g, 6, 6) == start_cell(6, 6));
    assert(attackers_spec(g, 7, 4, PieceColor::White) =~= Seq::<(u8, u8)>::empty());
}

} // verus!
