//! What this library needs to know of chess, asked of `shakmaty`.
//!
//! A position is passed around as the text of its FEN and a move as the text
//! of its UCI or SAN notation. The readers here hand such text to `shakmaty`
//! and bring back plain facts: who is to move, the FEN in `shakmaty`'s own
//! words, what piece a move moves and between which squares, the position
//! after a move. Their contracts are believed, not proved; all else in this
//! module is verified.

use shakmaty::fen::Fen;
use shakmaty::san::SanPlus;
use shakmaty::uci::UciMove;
use shakmaty::CastlingMode;
use shakmaty::Chess;
use shakmaty::EnPassantMode;
use shakmaty::Position;
use std::str::FromStr;
use vstd::prelude::*;
use vstd::string::StringExecFns;

verus! {

// ---------------------------------------------------------------------------
// Positions
// ---------------------------------------------------------------------------

/// What is read off a position.
#[derive(Debug)]
pub struct PositionFacts {
    /// Whether White is to move.
    pub white_to_move: bool,
    /// The FEN of the position as `shakmaty` writes it, with the en passant
    /// square only where a capture there is legal.
    pub fen: String,
}

/// Why a text gives no position.
#[derive(Debug)]
pub enum FenFault {
    /// The text is no FEN; the detail says which part is wrong.
    Syntax(String),
    /// The FEN describes no legal position; the detail says why.
    Setup(String),
}

/// The mathematical content of [`PositionFacts`].
pub struct PositionReading {
    pub white_to_move: bool,
    pub fen: Seq<char>,
}

/// The mathematical content of a [`FenFault`].
pub enum FenFailure {
    Syntax(Seq<char>),
    Setup(Seq<char>),
}

impl View for PositionFacts {
    type V = PositionReading;

    open spec fn view(&self) -> PositionReading {
        PositionReading { white_to_move: self.white_to_move, fen: self.fen@ }
    }
}

impl View for FenFault {
    type V = FenFailure;

    open spec fn view(&self) -> FenFailure {
        match self {
            FenFault::Syntax(detail) => FenFailure::Syntax(detail@),
            FenFault::Setup(detail) => FenFailure::Setup(detail@),
        }
    }
}

/// The view of what reading a position gave.
pub open spec fn reading_of(out: Result<PositionFacts, FenFault>) -> Result<
    PositionReading,
    FenFailure,
> {
    match out {
        Ok(facts) => Ok(facts@),
        Err(fault) => Err(fault@),
    }
}

/// What `shakmaty` makes of `text` read as the FEN of a position of standard
/// chess.
pub uninterp spec fn position_reading(text: Seq<char>) -> Result<PositionReading, FenFailure>;

/// Reads `text` as the FEN of a position of standard chess.
///
/// Calls `Fen::from_str`, whose error becomes [`FenFault::Syntax`] with the
/// error's text, then `Fen::into_position` for `Chess` with standard
/// castling, whose error becomes [`FenFault::Setup`] likewise. Of the
/// position it gives `Position::turn` and the text of `Fen::from_position`
/// with `EnPassantMode::Legal`. The contract claims only that all this
/// depends on `text` alone.
#[verifier::external_body]
pub(crate) fn position_facts(text: &str) -> (out: Result<PositionFacts, FenFault>)
    ensures
        reading_of(out) == position_reading(text@),
{
    let fen = Fen::from_str(text).map_err(|e| FenFault::Syntax(e.to_string()))?;
    let setup: Result<Chess, _> = fen.into_position(CastlingMode::Standard);
    let position = setup.map_err(|e| FenFault::Setup(e.to_string()))?;
    let white_to_move = position.turn().is_white();
    let fen = Fen::from_position(position, EnPassantMode::Legal).to_string();
    Ok(PositionFacts { white_to_move, fen })
}

// ---------------------------------------------------------------------------
// Pieces and squares
// ---------------------------------------------------------------------------

/// The kind of a piece.
#[derive(Debug, Clone, Copy, PartialEq, Eq, Hash, Structural)]
pub enum Role {
    Pawn,
    Knight,
    Bishop,
    Rook,
    Queen,
    King,
}

/// The kind of piece that `shakmaty` numbers `index`: 1 is the pawn, 6 the
/// king.
pub open spec fn role_numbered(index: u8) -> Option<Role> {
    if index == 1 {
        Some(Role::Pawn)
    } else if index == 2 {
        Some(Role::Knight)
    } else if index == 3 {
        Some(Role::Bishop)
    } else if index == 4 {
        Some(Role::Rook)
    } else if index == 5 {
        Some(Role::Queen)
    } else if index == 6 {
        Some(Role::King)
    } else {
        None
    }
}

/// The letter that stands for `role`.
pub open spec fn role_letter(role: Role) -> Seq<char> {
    match role {
        Role::Pawn => "P"@,
        Role::Knight => "N"@,
        Role::Bishop => "B"@,
        Role::Rook => "R"@,
        Role::Queen => "Q"@,
        Role::King => "K"@,
    }
}

impl Role {
    /// The kind of piece with the number `index`.
    pub fn from_index(index: u8) -> (out: Option<Role>)
        ensures
            out == role_numbered(index),
    {
        if index == 1 {
            Some(Role::Pawn)
        } else if index == 2 {
            Some(Role::Knight)
        } else if index == 3 {
            Some(Role::Bishop)
        } else if index == 4 {
            Some(Role::Rook)
        } else if index == 5 {
            Some(Role::Queen)
        } else if index == 6 {
            Some(Role::King)
        } else {
            None
        }
    }
}

/// The letter that stands for `role`.
pub fn role_symbol(role: Role) -> (out: &'static str)
    ensures
        out@ == role_letter(role),
{
    match role {
        Role::Pawn => "P",
        Role::Knight => "N",
        Role::Bishop => "B",
        Role::Rook => "R",
        Role::Queen => "Q",
        Role::King => "K",
    }
}

/// A square of the board, by its number: a1 is 0, b1 is 1, h8 is 63.
#[derive(Debug, Clone, Copy, PartialEq, Eq, Hash, Structural)]
pub struct Square {
    index: u8,
}

/// The letter of file number `file`, for a file of the board.
pub open spec fn file_letter(file: int) -> char {
    if file == 0 {
        'a'
    } else if file == 1 {
        'b'
    } else if file == 2 {
        'c'
    } else if file == 3 {
        'd'
    } else if file == 4 {
        'e'
    } else if file == 5 {
        'f'
    } else if file == 6 {
        'g'
    } else {
        'h'
    }
}

/// The digit of rank number `rank`, for a rank of the board.
pub open spec fn rank_digit(rank: int) -> char {
    if rank == 0 {
        '1'
    } else if rank == 1 {
        '2'
    } else if rank == 2 {
        '3'
    } else if rank == 3 {
        '4'
    } else if rank == 4 {
        '5'
    } else if rank == 5 {
        '6'
    } else if rank == 6 {
        '7'
    } else {
        '8'
    }
}

/// The name of the square with the number `index`: the letter of its file,
/// then the digit of its rank.
pub open spec fn name_of_square(index: u8) -> Seq<char> {
    seq![file_letter(index as int % 8), rank_digit(index as int / 8)]
}

fn file_text(file: u8) -> (out: &'static str)
    ensures
        out@ == seq![file_letter(file as int)],
{
    proof {
        reveal_strlit("a");
        reveal_strlit("b");
        reveal_strlit("c");
        reveal_strlit("d");
        reveal_strlit("e");
        reveal_strlit("f");
        reveal_strlit("g");
        reveal_strlit("h");
    }
    let out = if file == 0 {
        "a"
    } else if file == 1 {
        "b"
    } else if file == 2 {
        "c"
    } else if file == 3 {
        "d"
    } else if file == 4 {
        "e"
    } else if file == 5 {
        "f"
    } else if file == 6 {
        "g"
    } else {
        "h"
    };
    assert(out@ =~= seq![file_letter(file as int)]);
    out
}

fn rank_text(rank: u8) -> (out: &'static str)
    ensures
        out@ == seq![rank_digit(rank as int)],
{
    proof {
        reveal_strlit("1");
        reveal_strlit("2");
        reveal_strlit("3");
        reveal_strlit("4");
        reveal_strlit("5");
        reveal_strlit("6");
        reveal_strlit("7");
        reveal_strlit("8");
    }
    let out = if rank == 0 {
        "1"
    } else if rank == 1 {
        "2"
    } else if rank == 2 {
        "3"
    } else if rank == 3 {
        "4"
    } else if rank == 4 {
        "5"
    } else if rank == 5 {
        "6"
    } else if rank == 6 {
        "7"
    } else {
        "8"
    };
    assert(out@ =~= seq![rank_digit(rank as int)]);
    out
}

impl Square {
    #[verifier::type_invariant]
    spec fn on_board(self) -> bool {
        self.index < 64
    }

    /// The square with the number `index`.
    pub closed spec fn numbered(index: u8) -> Square {
        Square { index }
    }

    /// The number of the square.
    pub closed spec fn number(self) -> u8 {
        self.index
    }

    /// A square is the square with its number.
    pub proof fn lemma_number(index: u8)
        ensures
            Square::numbered(index).number() == index,
    {
    }

    /// The square with the number `index`, if there is one.
    pub fn new(index: u8) -> (out: Option<Square>)
        ensures
            index < 64 ==> out == Some(Square::numbered(index)),
            index >= 64 ==> out is None,
    {
        if index < 64 {
            Some(Square { index })
        } else {
            None
        }
    }

    /// The number of the square.
    pub fn index(&self) -> (out: u8)
        ensures
            out == self.number(),
            out < 64,
    {
        proof {
            use_type_invariant(self);
        }
        self.index
    }
}

/// The name of `square`, such as `e4`.
pub fn square_name(square: Square) -> (out: String)
    ensures
        out@ == name_of_square(square.number()),
{
    let index = square.index();
    let mut out = file_text(index % 8).to_owned();
    out.append(rank_text(index / 8));
    assert(out@ =~= name_of_square(index));
    out
}

// ---------------------------------------------------------------------------
// Moves
// ---------------------------------------------------------------------------

/// What is read off a move in a position.
#[derive(Debug)]
pub struct MoveFacts {
    /// The number of the kind of piece that moves.
    pub role: u8,
    /// The number of the square that the piece leaves, if it leaves one.
    pub from: Option<u8>,
    /// The number of the square that the piece goes to; for castling, the
    /// square of the rook.
    pub to: u8,
    /// The move in standard algebraic notation, with its check mark.
    pub san: String,
}

/// Why a text gives no move in a position.
#[derive(Debug)]
pub enum MoveFault {
    /// The position itself cannot be read.
    Position,
    /// The text is no move in UCI notation; the detail says so.
    Syntax(String),
    /// The move is not legal in the position.
    Illegal,
}

/// The mathematical content of [`MoveFacts`].
pub struct MoveReading {
    pub role: u8,
    pub from: Option<u8>,
    pub to: u8,
    pub san: Seq<char>,
}

/// The mathematical content of a [`MoveFault`].
pub enum MoveFailure {
    Position,
    Syntax(Seq<char>),
    Illegal,
}

impl View for MoveFacts {
    type V = MoveReading;

    open spec fn view(&self) -> MoveReading {
        MoveReading { role: self.role, from: self.from, to: self.to, san: self.san@ }
    }
}

impl View for MoveFault {
    type V = MoveFailure;

    open spec fn view(&self) -> MoveFailure {
        match self {
            MoveFault::Position => MoveFailure::Position,
            MoveFault::Syntax(detail) => MoveFailure::Syntax(detail@),
            MoveFault::Illegal => MoveFailure::Illegal,
        }
    }
}

/// The view of what reading a move gave.
pub open spec fn move_reading_of(out: Result<MoveFacts, MoveFault>) -> Result<
    MoveReading,
    MoveFailure,
> {
    match out {
        Ok(facts) => Ok(facts@),
        Err(fault) => Err(fault@),
    }
}

/// What `shakmaty` makes of `uci` read as a move in UCI notation in the
/// position with the FEN `fen`.
pub uninterp spec fn move_reading(fen: Seq<char>, uci: Seq<char>) -> Result<
    MoveReading,
    MoveFailure,
>;

/// Reads `uci` as a move in the position with the FEN `fen`.
///
/// Sets the position up as [`position_facts`] does; where that fails the
/// result is [`MoveFault::Position`], and only then. Calls
/// `UciMove::from_str`, whose error becomes [`MoveFault::Syntax`] with the
/// error's text, then `UciMove::to_move`, whose error becomes
/// [`MoveFault::Illegal`]. Of the move it gives `Move::role`, `Move::from`
/// and `Move::to` as the numbers that `shakmaty` gives its roles (1 to 6)
/// and squares (0 to 63), and the text of `SanPlus::from_move`. Beyond those
/// ranges the contract claims only that all this depends on the two texts
/// alone.
#[verifier::external_body]
pub(crate) fn move_facts(fen: &str, uci: &str) -> (out: Result<MoveFacts, MoveFault>)
    ensures
        move_reading_of(out) == move_reading(fen@, uci@),
        out matches Ok(m) ==> 1 <= m.role <= 6 && m.to < 64 && (m.from matches Some(f) ==> f
            < 64),
        (out matches Err(MoveFault::Position)) <==> position_reading(fen@) is Err,
{
    let parsed = Fen::from_str(fen).ok();
    let setup = parsed.and_then(|f| f.into_position::<Chess>(CastlingMode::Standard).ok());
    let position = setup.ok_or(MoveFault::Position)?;
    let uci = UciMove::from_str(uci).map_err(|e| MoveFault::Syntax(e.to_string()))?;
    let mv = uci.to_move(&position).map_err(|_| MoveFault::Illegal)?;
    let san = SanPlus::from_move(position, &mv).to_string();
    let (role, from, to) = (u8::from(mv.role()), mv.from().map(u8::from), u8::from(mv.to()));
    Ok(MoveFacts { role, from, to, san })
}

// ---------------------------------------------------------------------------
// Moves in standard algebraic notation
// ---------------------------------------------------------------------------

/// What `shakmaty` has against `token` read as a move in standard algebraic
/// notation, if anything: the text of its error.
pub uninterp spec fn san_syntax_fault(token: Seq<char>) -> Option<Seq<char>>;

/// Checks that `token` can be read as a move in standard algebraic
/// notation, with or without a check mark.
///
/// Calls `SanPlus::from_ascii` on the bytes of `token` and gives the text
/// of its error. The contract claims only that the outcome depends on
/// `token` alone.
#[verifier::external_body]
pub(crate) fn san_syntax(token: &str) -> (out: Result<(), String>)
    ensures
        match out {
            Ok(_) => san_syntax_fault(token@) is None,
            Err(detail) => san_syntax_fault(token@) == Some(detail@),
        },
{
    SanPlus::from_ascii(token.as_bytes()).map(|_| ()).map_err(|e| e.to_string())
}

/// What is read off a move given in standard algebraic notation.
#[derive(Debug)]
pub struct SanFacts {
    /// The move as `shakmaty` writes what it read.
    pub san: String,
    /// The move in UCI notation, castling as a move of the king.
    pub uci: String,
}

/// Why a text gives no move to play in a position.
#[derive(Debug)]
pub enum PlyFault {
    /// The position itself cannot be read.
    Position,
    /// The text is no move in standard algebraic notation.
    Syntax(String),
    /// The move is not legal in the position, or fits several legal moves.
    Illegal(String),
}

/// The mathematical content of [`SanFacts`].
pub struct SanReading {
    pub san: Seq<char>,
    pub uci: Seq<char>,
}

/// The mathematical content of a [`PlyFault`].
pub enum PlyFailure {
    Position,
    Syntax(Seq<char>),
    Illegal(Seq<char>),
}

impl View for SanFacts {
    type V = SanReading;

    open spec fn view(&self) -> SanReading {
        SanReading { san: self.san@, uci: self.uci@ }
    }
}

impl View for PlyFault {
    type V = PlyFailure;

    open spec fn view(&self) -> PlyFailure {
        match self {
            PlyFault::Position => PlyFailure::Position,
            PlyFault::Syntax(detail) => PlyFailure::Syntax(detail@),
            PlyFault::Illegal(detail) => PlyFailure::Illegal(detail@),
        }
    }
}

/// The view of what reading a move gave.
pub open spec fn san_reading_of(out: Result<SanFacts, PlyFault>) -> Result<SanReading, PlyFailure> {
    match out {
        Ok(facts) => Ok(facts@),
        Err(fault) => Err(fault@),
    }
}

/// What `shakmaty` makes of `san` read as a move in standard algebraic
/// notation in the position with the FEN `fen`.
pub uninterp spec fn san_reading(fen: Seq<char>, san: Seq<char>) -> Result<SanReading, PlyFailure>;

/// Reads `san` as a move in the position with the FEN `fen`.
///
/// Sets the position up as [`position_facts`] does; where that fails the
/// result is [`PlyFault::Position`], and only then. Calls
/// `SanPlus::from_ascii`, whose error becomes [`PlyFault::Syntax`], then
/// `San::to_move`, whose error becomes [`PlyFault::Illegal`], each with the
/// error's text. It gives the text of what was read and the text of
/// `UciMove::from_move` with standard castling. The contract claims only
/// that all this depends on the two texts alone.
#[verifier::external_body]
pub(crate) fn san_facts(fen: &str, san: &str) -> (out: Result<SanFacts, PlyFault>)
    ensures
        san_reading_of(out) == san_reading(fen@, san@),
        (out matches Err(PlyFault::Position)) <==> position_reading(fen@) is Err,
{
    let parsed = Fen::from_str(fen).ok();
    let setup = parsed.and_then(|f| f.into_position::<Chess>(CastlingMode::Standard).ok());
    let position = setup.ok_or(PlyFault::Position)?;
    let san = SanPlus::from_ascii(san.as_bytes()).map_err(|e| PlyFault::Syntax(e.to_string()))?;
    let mv = san.san.to_move(&position).map_err(|e| PlyFault::Illegal(e.to_string()))?;
    let uci = UciMove::from_move(&mv, CastlingMode::Standard).to_string();
    Ok(SanFacts { san: san.to_string(), uci })
}

/// The text of an optional string.
pub open spec fn text_of(s: Option<String>) -> Option<Seq<char>> {
    match s {
        Some(s) => Some(s@),
        None => None,
    }
}

/// The FEN of the position that the move `uci` leads to from the position
/// with the FEN `fen`, as `shakmaty` plays it; nothing where the move
/// cannot be read in that position.
pub uninterp spec fn position_after(fen: Seq<char>, uci: Seq<char>) -> Option<Seq<char>>;

/// Plays the move `uci` in the position with the FEN `fen`.
///
/// Sets the position up and reads the move as [`move_facts`] does, calls
/// `Position::play`, and gives the text of `Fen::from_position` with
/// `EnPassantMode::Legal`. `play` accepts exactly the legal moves, which
/// are the moves that `UciMove::to_move` gives, so there is a position
/// after the move just where [`move_facts`] reads one. Otherwise the
/// contract claims only that the outcome depends on the two texts alone.
#[verifier::external_body]
pub(crate) fn play_move(fen: &str, uci: &str) -> (out: Option<String>)
    ensures
        text_of(out) == position_after(fen@, uci@),
        out is Some <==> move_reading(fen@, uci@) is Ok,
{
    let parsed = Fen::from_str(fen).ok()?;
    let position = parsed.into_position::<Chess>(CastlingMode::Standard).ok()?;
    let mv = UciMove::from_str(uci).ok()?.to_move(&position).ok()?;
    let next = position.play(&mv).ok()?;
    Some(Fen::from_position(next, EnPassantMode::Legal).to_string())
}

} // verus!
