use vstd::prelude::*;

verus! {

/// The six kinds of chess pieces.
#[derive(Debug, Clone, Copy, PartialEq, Eq, Structural)]
pub enum PieceType {
    Pawn,
    Rook,
    Knight,
    Bishop,
    Queen,
    King,
}

/// The two sides.
#[derive(Debug, Clone, Copy, PartialEq, Eq, Structural)]
pub enum PieceColor {
    White,
    Black,
}

/// A piece standing on a square: `row` 0 is Black's back rank, `col` 0 is the a-file.
#[derive(Debug, Clone, Copy, PartialEq, Eq, Structural)]
pub struct Piece {
    pub piece_type: PieceType,
    pub color: PieceColor,
    pub row: u8,
    pub col: u8,
}

/// A move of the piece standing on some origin square.
///
/// `capture` carries the captured piece with its own square, which differs from `to`
/// only for an en-passant capture. A castling move also carries the rook's destination.
#[derive(Debug, Clone, Copy)]
pub struct Move {
    pub to: (u8, u8),
    pub capture: Option<Piece>,
    pub promotion: Option<PieceType>,
    pub castling: bool,
    pub rook_to: Option<(u8, u8)>,
}

pub open spec fn opposite_spec(c: PieceColor) -> PieceColor {
    match c {
        PieceColor::White => PieceColor::Black,
        PieceColor::Black => PieceColor::White,
    }
}

pub open spec fn color_id_spec(c: PieceColor) -> u8 {
    match c {
        PieceColor::White => 64,
        PieceColor::Black => 128,
    }
}

pub open spec fn type_id_spec(t: PieceType) -> u8 {
    match t {
        PieceType::Pawn => 1,
        PieceType::Rook => 2,
        PieceType::Knight => 4,
        PieceType::Bishop => 8,
        PieceType::Queen => 16,
        PieceType::King => 32,
    }
}

pub open spec fn color_img_spec(c: PieceColor) -> i32 {
    match c {
        PieceColor::White => 0,
        PieceColor::Black => 1,
    }
}

pub open spec fn type_img_spec(t: PieceType) -> i32 {
    match t {
        PieceType::Pawn => 5,
        PieceType::Rook => 2,
        PieceType::Knight => 3,
        PieceType::Bishop => 4,
        PieceType::Queen => 0,
        PieceType::King => 1,
    }
}

/// The identity byte of a piece: its kind's bit and its side's bit.
pub open spec fn piece_id_spec(p: Piece) -> u8 {
    (type_id_spec(p.piece_type) + color_id_spec(p.color)) as u8
}

/// Material value; the king counts for nothing in a material sum.
pub open spec fn value_spec(t: PieceType) -> usize {
    match t {
        PieceType::Pawn => 1,
        PieceType::Rook => 5,
        PieceType::Knight => 3,
        PieceType::Bishop => 3,
        PieceType::Queen => 9,
        PieceType::King => 0,
    }
}

/// Material value counting a pawn as the queen it may become.
pub open spec fn potential_value_spec(t: PieceType) -> usize {
    match t {
        PieceType::Pawn => value_spec(PieceType::Queen),
        _ => value_spec(t),
    }
}

/// The letter of a piece in board-setup notation: upper case for White.
pub open spec fn fen_char_spec(c: PieceColor, t: PieceType) -> char {
    let lower = match t {
        PieceType::Pawn => 'p',
        PieceType::Rook => 'r',
        PieceType::Knight => 'n',
        PieceType::Bishop => 'b',
        PieceType::Queen => 'q',
        PieceType::King => 'k',
    };
    let upper = match t {
        PieceType::Pawn => 'P',
        PieceType::Rook => 'R',
        PieceType::Knight => 'N',
        PieceType::Bishop => 'B',
        PieceType::Queen => 'Q',
        PieceType::King => 'K',
    };
    match c {
        PieceColor::White => upper,
        PieceColor::Black => lower,
    }
}

/// The kind and side that a letter of board-setup notation denotes, if any.
pub open spec fn fen_piece_spec(ch: char) -> Option<(PieceType, PieceColor)> {
    if ch == 'P' { Some((PieceType::Pawn, PieceColor::White)) }
    else if ch == 'p' { Some((PieceType::Pawn, PieceColor::Black)) }
    else if ch == 'R' { Some((PieceType::Rook, PieceColor::White)) }
    else if ch == 'r' { Some((PieceType::Rook, PieceColor::Black)) }
    else if ch == 'N' { Some((PieceType::Knight, PieceColor::White)) }
    else if ch == 'n' { Some((PieceType::Knight, PieceColor::Black)) }
    else if ch == 'B' { Some((PieceType::Bishop, PieceColor::White)) }
    else if ch == 'b' { Some((PieceType::Bishop, PieceColor::Black)) }
    else if ch == 'Q' { Some((PieceType::Queen, PieceColor::White)) }
    else if ch == 'q' { Some((PieceType::Queen, PieceColor::Black)) }
    else if ch == 'K' { Some((PieceType::King, PieceColor::White)) }
    else if ch == 'k' { Some((PieceType::King, PieceColor::Black)) }
    else { None }
}

/// Each letter that a piece is written with reads back as that piece.
pub proof fn lemma_fen_char_round_trip(c: PieceColor, t: PieceType)
    ensures
        fen_piece_spec(fen_char_spec(c, t)) == Some((t, c)),
{
}

impl Move {
    /// An ordinary move (no castling) to `to`.
    pub fn new(to: (u8, u8), capture: Option<Piece>, promotion: Option<PieceType>) -> (r: Self)
        ensures
            r == (Move { to, capture, promotion, castling: false, rook_to: None }),
    {
        Self { to, capture, promotion, castling: false, rook_to: None }
    }

    /// A castling move: the king goes to `king_to`, the rook to `rook_to`.
    pub fn castle(king_to: (u8, u8), rook_to: (u8, u8)) -> (r: Self)
        ensures
            r == (Move {
                to: king_to,
                capture: None,
                promotion: None,
                castling: true,
                rook_to: Some(rook_to),
            }),
    {
        Self { to: king_to, capture: None, promotion: None, castling: true, rook_to: Some(rook_to) }
    }
}

impl PieceColor {
    /// The column of this side's pieces in the sprite sheet.
    pub fn img_index(&self) -> (r: i32)
        ensures
            r == color_img_spec(*self),
    {
        match self {
            PieceColor::White => 0,
            PieceColor::Black => 1,
        }
    }

    /// The side's bit in a piece identity.
    pub fn id(&self) -> (r: u8)
        ensures
            r == color_id_spec(*self),
    {
        match self {
            PieceColor::White => 64,
            PieceColor::Black => 128,
        }
    }

    pub fn opposite(&self) -> (r: Self)
        ensures
            r == opposite_spec(*self),
            r != *self,
    {
        match self {
            PieceColor::White => PieceColor::Black,
            PieceColor::Black => PieceColor::White,
        }
    }
}

/// Taking the opposite side twice gives the side back.
pub proof fn lemma_opposite_involution(c: PieceColor)
    ensures
        opposite_spec(opposite_spec(c)) == c,
        opposite_spec(c) != c,
{
}

impl PieceType {
    pub fn value(&self) -> (r: usize)
        ensures
            r == value_spec(*self),
    {
        match self {
            PieceType::Pawn => 1,
            PieceType::Rook => 5,
            PieceType::Knight => 3,
            PieceType::Bishop => 3,
            PieceType::Queen => 9,
            PieceType::King => 0,
        }
    }

    /// The kind's bit in a piece identity.
    pub fn id(&self) -> (r: u8)
        ensures
            r == type_id_spec(*self),
    {
        match self {
            PieceType::Pawn => 1,
            PieceType::Rook => 2,
            PieceType::Knight => 4,
            PieceType::Bishop => 8,
            PieceType::Queen => 16,
            PieceType::King => 32,
        }
    }

    /// The row of this kind in the sprite sheet.
    pub fn img_index(&self) -> (r: i32)
        ensures
            r == type_img_spec(*self),
    {
        match self {
            PieceType::Pawn => 5,
            PieceType::Rook => 2,
            PieceType::Knight => 3,
            PieceType::Bishop => 4,
            PieceType::Queen => 0,
            PieceType::King => 1,
        }
    }
}

/// Relies on `String::push`: the character is appended at the end.
#[verifier::external_body]
pub(crate) fn push_char(s: &mut String, c: char)
    ensures
        final(s)@ == old(s)@.push(c),
{
    s.push(c)
}

/// The decimal digit for `0 <= d < 10`.
pub open spec fn digit_char(d: int) -> char {
    if d == 0 { '0' }
    else if d == 1 { '1' }
    else if d == 2 { '2' }
    else if d == 3 { '3' }
    else if d == 4 { '4' }
    else if d == 5 { '5' }
    else if d == 6 { '6' }
    else if d == 7 { '7' }
    else if d == 8 { '8' }
    else { '9' }
}

pub fn digit(d: u8) -> (r: char)
    requires
        d < 10,
    ensures
        r == digit_char(d as int),
{
    match d {
        0 => '0',
        1 => '1',
        2 => '2',
        3 => '3',
        4 => '4',
        5 => '5',
        6 => '6',
        7 => '7',
        8 => '8',
        _ => '9',
    }
}

impl Piece {
    pub fn new(piece_type: PieceType, color: PieceColor, row: u8, col: u8) -> (r: Self)
        ensures
            r == (Piece { piece_type, color, row, col }),
    {
        Self { piece_type, color, row, col }
    }

    /// Reads a letter of board-setup notation as a piece on `(row, col)`.
    pub fn from_fen(id: char, row: u8, col: u8) -> (r: Option<Self>)
        ensures
            r == (match fen_piece_spec(id) {
                Some((t, c)) => Some(Piece { piece_type: t, color: c, row, col }),
                None => None,
            }),
    {
        let kind = match id {
            'P' | 'p' => PieceType::Pawn,
            'R' | 'r' => PieceType::Rook,
            'N' | 'n' => PieceType::Knight,
            'B' | 'b' => PieceType::Bishop,
            'Q' | 'q' => PieceType::Queen,
            'K' | 'k' => PieceType::King,
            _ => {
                return None;
            },
        };
        let color = if id == 'P' || id == 'R' || id == 'N' || id == 'B' || id == 'Q' || id == 'K' {
            PieceColor::White
        } else {
            PieceColor::Black
        };
        Some(Self::new(kind, color, row, col))
    }

    /// The letter of this piece in board-setup notation.
    pub fn to_fen(&self) -> (r: char)
        ensures
            r == fen_char_spec(self.color, self.piece_type),
    {
        let lower = match self.piece_type {
            PieceType::Pawn => 'p',
            PieceType::Rook => 'r',
            PieceType::Knight => 'n',
            PieceType::Bishop => 'b',
            PieceType::Queen => 'q',
            PieceType::King => 'k',
        };
        let upper = match self.piece_type {
            PieceType::Pawn => 'P',
            PieceType::Rook => 'R',
            PieceType::Knight => 'N',
            PieceType::Bishop => 'B',
            PieceType::Queen => 'Q',
            PieceType::King => 'K',
        };
        match self.color {
            PieceColor::White => upper,
            PieceColor::Black => lower,
        }
    }

    pub fn get_value(&self) -> (r: usize)
        ensures
            r == value_spec(self.piece_type),
    {
        self.piece_type.value()
    }

    pub fn get_potential_value(&self) -> (r: usize)
        ensures
            r == potential_value_spec(self.piece_type),
    {
        match self.piece_type {
            PieceType::Pawn => PieceType::Queen.value(),
            _ => self.get_value(),
        }
    }

    /// The image file of this piece: side index, kind index, then `.png`.
    pub fn get_png(&self) -> (r: String)
        ensures
            r@ == seq![
                digit_char(color_img_spec(self.color) as int),
                digit_char(type_img_spec(self.piece_type) as int),
                '.', 'p', 'n', 'g',
            ],
    {
        let c = self.color.img_index();
        let t = self.piece_type.img_index();
        let mut s = String::new();
        push_char(&mut s, digit(c as u8));
        push_char(&mut s, digit(t as u8));
        push_char(&mut s, '.');
        push_char(&mut s, 'p');
        push_char(&mut s, 'n');
        push_char(&mut s, 'g');
        s
    }

    /// The identity byte: the kind's bit together with the side's bit.
    pub fn id(&self) -> (r: u8)
        ensures
            r == piece_id_spec(*self),
    {
        let t = self.piece_type.id();
        let c = self.color.id();
        assert(t < 64 && (c == 64 || c == 128));
        assert(t < 64u8 && (c == 64u8 || c == 128u8) ==> t | c == t + c) by (bit_vector);
        t | c
    }

    /// Whether this piece's identity lies within `mask`.
    pub fn matches(&self, mask: u8) -> (r: bool)
        ensures
            r == (piece_id_spec(*self) & mask == piece_id_spec(*self)),
            r == (type_id_spec(self.piece_type) & mask != 0 && color_id_spec(self.color) & mask
                != 0),
    {
        let my_id = self.id();
        let ghost t = type_id_spec(self.piece_type);
        let ghost c = color_id_spec(self.color);
        assert(my_id == t | c) by {
            assert(t < 64u8 && (c == 64u8 || c == 128u8) ==> t | c == t + c) by (bit_vector);
        }
        assert((t == 1u8 || t == 2u8 || t == 4u8 || t == 8u8 || t == 16u8 || t == 32u8) && (c
            == 64u8 || c == 128u8) ==> (((t | c) & mask == (t | c)) == (t & mask != 0 && c & mask
            != 0))) by (bit_vector);
        my_id & mask == my_id
    }

    /// Moves this piece to the square the move sends it to: the rook's square for the
    /// rook of a castling move, the destination otherwise.
    pub fn move_piece(&mut self, mv: &Move)
        requires
            mv.castling && old(self).piece_type == PieceType::Rook ==> mv.rook_to.is_some(),
        ensures
            final(self).piece_type == old(self).piece_type,
            final(self).color == old(self).color,
            (final(self).row, final(self).col) == (if mv.castling && old(self).piece_type
                == PieceType::Rook {
                mv.rook_to.unwrap()
            } else {
                mv.to
            }),
    {
        if mv.castling && self.piece_type == PieceType::Rook {
            let rt = mv.rook_to.unwrap();
            self.row = rt.0;
            self.col = rt.1;
        } else {
            self.row = mv.to.0;
            self.col = mv.to.1;
        }
    }
}

} // verus!
