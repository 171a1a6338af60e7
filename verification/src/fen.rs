//! Positions as text: the canonical form of a FEN, and whose turn it is.

use crate::chess::position_facts;
use crate::chess::position_reading;
use crate::chess::FenFailure;
use crate::chess::FenFault;
use crate::text::join_spaced;
use crate::text::join_with_spaces;
use crate::text::split_whitespace;
use crate::text::tokens;
use vstd::prelude::*;
use vstd::string::StringExecFns;

verus! {

/// What was being done when a position or a move was refused.
#[derive(Debug, Clone, Copy, PartialEq, Eq, Structural)]
pub enum Task {
    /// Counting how often each move is played.
    Analysis,
    /// Bringing a FEN into canonical form.
    Canonicalizing,
    /// Finding out whose turn it is.
    CheckingTurn,
    /// Taking in the nodes of a repertoire.
    NodeList,
    /// Ordering the moves out of a node.
    SortingChildren,
}

/// Why a position or a move was refused.
#[derive(Debug)]
pub enum ChessError {
    /// The text is no FEN.
    InvalidFen { fen: String, task: Task, detail: String },
    /// The FEN describes no legal position.
    InvalidPosition { fen: String, task: Task, detail: String },
    /// The text is no move in UCI notation.
    InvalidUci { uci: String, fen: String, task: Task, detail: String },
    /// The move is not legal in the position.
    IllegalMove { uci: String, fen: String },
    /// The move has no square that it starts from.
    NoOrigin,
}

/// The mathematical content of a [`ChessError`].
pub enum ChessFailure {
    InvalidFen { fen: Seq<char>, task: Task, detail: Seq<char> },
    InvalidPosition { fen: Seq<char>, task: Task, detail: Seq<char> },
    InvalidUci { uci: Seq<char>, fen: Seq<char>, task: Task, detail: Seq<char> },
    IllegalMove { uci: Seq<char>, fen: Seq<char> },
    NoOrigin,
}

impl View for ChessError {
    type V = ChessFailure;

    open spec fn view(&self) -> ChessFailure {
        match self {
            ChessError::InvalidFen { fen, task, detail } => ChessFailure::InvalidFen {
                fen: fen@,
                task: *task,
                detail: detail@,
            },
            ChessError::InvalidPosition { fen, task, detail } => ChessFailure::InvalidPosition {
                fen: fen@,
                task: *task,
                detail: detail@,
            },
            ChessError::InvalidUci { uci, fen, task, detail } => ChessFailure::InvalidUci {
                uci: uci@,
                fen: fen@,
                task: *task,
                detail: detail@,
            },
            ChessError::IllegalMove { uci, fen } => ChessFailure::IllegalMove {
                uci: uci@,
                fen: fen@,
            },
            ChessError::NoOrigin => ChessFailure::NoOrigin,
        }
    }
}

/// The words that name `task` in a message.
pub open spec fn task_words(task: Task) -> Seq<char> {
    match task {
        Task::Analysis => ""@,
        Task::Canonicalizing => " while canonicalizing"@,
        Task::CheckingTurn => " while checking turn"@,
        Task::NodeList => " in node list"@,
        Task::SortingChildren => " while sorting children"@,
    }
}

impl ChessFailure {
    /// The failure in words.
    pub open spec fn message(self) -> Seq<char> {
        match self {
            ChessFailure::InvalidFen { fen, task, detail } => "Invalid FEN '"@ + fen + "'"@
                + task_words(task) + ": "@ + detail,
            ChessFailure::InvalidPosition { fen, task, detail } =>
                "Unable to construct position from '"@ + fen + "'"@ + task_words(task) + ": "@
                    + detail,
            ChessFailure::InvalidUci { uci, fen, task, detail } => if task is SortingChildren {
                "Invalid UCI '"@ + uci + "' for node "@ + fen + task_words(task) + ": "@ + detail
            } else {
                "Invalid UCI '"@ + uci + "' for "@ + fen + task_words(task) + ": "@ + detail
            },
            ChessFailure::IllegalMove { uci, fen } => "Move '"@ + uci
                + "' is illegal in position "@ + fen,
            ChessFailure::NoOrigin => "Move lacks origin square"@,
        }
    }
}

fn task_text(task: Task) -> (out: &'static str)
    ensures
        out@ == task_words(task),
{
    match task {
        Task::Analysis => "",
        Task::Canonicalizing => " while canonicalizing",
        Task::CheckingTurn => " while checking turn",
        Task::NodeList => " in node list",
        Task::SortingChildren => " while sorting children",
    }
}

impl ChessError {
    /// The failure in words.
    pub fn message(&self) -> (out: String)
        ensures
            out@ == self@.message(),
    {
        match self {
            ChessError::InvalidFen { fen, task, detail } => {
                let mut out = String::from_str("Invalid FEN '");
                out.append(fen.as_str());
                out.append("'");
                out.append(task_text(*task));
                out.append(": ");
                out.append(detail.as_str());
                out
            },
            ChessError::InvalidPosition { fen, task, detail } => {
                let mut out = String::from_str("Unable to construct position from '");
                out.append(fen.as_str());
                out.append("'");
                out.append(task_text(*task));
                out.append(": ");
                out.append(detail.as_str());
                out
            },
            ChessError::InvalidUci { uci, fen, task, detail } => {
                let mut out = String::from_str("Invalid UCI '");
                out.append(uci.as_str());
                match task {
                    Task::SortingChildren => {
                        out.append("' for node ");
                    },
                    _ => {
                        out.append("' for ");
                    },
                }
                out.append(fen.as_str());
                out.append(task_text(*task));
                out.append(": ");
                out.append(detail.as_str());
                out
            },
            ChessError::IllegalMove { uci, fen } => {
                let mut out = String::from_str("Move '");
                out.append(uci.as_str());
                out.append("' is illegal in position ");
                out.append(fen.as_str());
                out
            },
            ChessError::NoOrigin => String::from_str("Move lacks origin square"),
        }
    }
}

/// The failure that a refused FEN surfaces as during `task`.
pub open spec fn fen_failure(fault: FenFailure, fen: Seq<char>, task: Task) -> ChessFailure {
    match fault {
        FenFailure::Syntax(detail) => ChessFailure::InvalidFen { fen, task, detail },
        FenFailure::Setup(detail) => ChessFailure::InvalidPosition { fen, task, detail },
    }
}

/// The error that a refused FEN surfaces as during `task`.
pub fn fen_error(fault: FenFault, fen: &str, task: Task) -> (out: ChessError)
    ensures
        out@ == fen_failure(fault@, fen@, task),
{
    match fault {
        FenFault::Syntax(detail) => ChessError::InvalidFen {
            fen: String::from_str(fen),
            task,
            detail,
        },
        FenFault::Setup(detail) => ChessError::InvalidPosition {
            fen: String::from_str(fen),
            task,
            detail,
        },
    }
}

// ---------------------------------------------------------------------------
// Canonical form
// ---------------------------------------------------------------------------

/// `text` with its move counters set back: where it has six fields, the
/// fifth becomes `0` and the sixth `1`, and single spaces separate the
/// fields; any other text stays as it is.
pub open spec fn with_counters_reset(text: Seq<char>) -> Seq<char> {
    let fields = tokens(text);
    if fields.len() == 6 {
        join_spaced(fields.update(4, "0"@).update(5, "1"@))
    } else {
        text
    }
}

/// Sets the move counters of a FEN back to `0 1`.
pub fn reset_move_counters(fen_text: &str) -> (out: String)
    ensures
        out@ == with_counters_reset(fen_text@),
{
    let mut fields = split_whitespace(fen_text);
    if fields.len() == 6 {
        let ghost before = fields.deep_view();
        fields.set(4, String::from_str("0"));
        fields.set(5, String::from_str("1"));
        assert(fields.deep_view() =~= before.update(4, "0"@).update(5, "1"@));
        return join_with_spaces(&fields);
    }
    String::from_str(fen_text)
}

/// The canonical form of the FEN `text`: the position as `shakmaty` writes
/// it, with the move counters set back, so that a position has one text
/// however it was reached.
pub open spec fn canonical_fen(text: Seq<char>) -> Result<Seq<char>, ChessFailure> {
    match position_reading(text) {
        Ok(position) => Ok(with_counters_reset(position.fen)),
        Err(fault) => Err(fen_failure(fault, text, Task::Canonicalizing)),
    }
}

/// The view of a text or an error.
pub open spec fn text_or_failure(out: Result<String, ChessError>) -> Result<
    Seq<char>,
    ChessFailure,
> {
    match out {
        Ok(text) => Ok(text@),
        Err(e) => Err(e@),
    }
}

/// Brings a FEN into canonical form.
pub fn canonicalize_fen_str(fen_text: &str) -> (out: Result<String, ChessError>)
    ensures
        text_or_failure(out) == canonical_fen(fen_text@),
{
    match position_facts(fen_text) {
        Ok(position) => Ok(reset_move_counters(position.fen.as_str())),
        Err(fault) => Err(fen_error(fault, fen_text, Task::Canonicalizing)),
    }
}

/// Brings a FEN into canonical form.
pub fn canonicalize_fen(fen_text: String) -> (out: Result<String, ChessError>)
    ensures
        text_or_failure(out) == canonical_fen(fen_text@),
{
    canonicalize_fen_str(fen_text.as_str())
}

// ---------------------------------------------------------------------------
// Whose turn
// ---------------------------------------------------------------------------

/// Whether the positions `fens[..n]` can all be read.
pub open spec fn all_readable(fens: Seq<Seq<char>>, n: int) -> bool {
    forall|i: int| 0 <= i < n ==> position_reading(#[trigger] fens[i]) is Ok
}

/// Whether `mask` says of each position of `fens` whether the given side is
/// to move.
pub open spec fn is_turn_mask(mask: Seq<bool>, side_is_white: bool, fens: Seq<Seq<char>>) -> bool {
    &&& mask.len() == fens.len()
    &&& forall|i: int|
        0 <= i < fens.len() ==> (position_reading(#[trigger] fens[i]) matches Ok(position)
            && mask[i] == (position.white_to_move == side_is_white))
}

/// Whether the side that is to move is the side asked for.
pub fn on_turn(side_is_white: bool, white_to_move: bool) -> (out: bool)
    ensures
        out == (white_to_move == side_is_white),
{
    white_to_move == side_is_white
}

/// Says of each position whether the given side is to move. The first
/// position that cannot be read is refused, and nothing is said of any.
pub fn player_turn_mask(side_is_white: bool, fens: Vec<String>) -> (out: Result<
    Vec<bool>,
    ChessError,
>)
    ensures
        match out {
            Ok(mask) => is_turn_mask(mask@, side_is_white, fens.deep_view()),
            Err(e) => exists|k: int|
                0 <= k < fens.len() && all_readable(fens.deep_view(), k) && (position_reading(
                    #[trigger] fens.deep_view()[k],
                ) matches Err(fault) && e@ == fen_failure(fault, fens[k]@, Task::CheckingTurn)),
        },
{
    let mut mask: Vec<bool> = Vec::new();
    let mut i: usize = 0;
    while i < fens.len()
        invariant
            i <= fens.len(),
            is_turn_mask(mask@, side_is_white, fens.deep_view().take(i as int)),
        decreases fens.len() - i,
    {
        let ghost texts = fens.deep_view();
        assert(texts[i as int] == fens[i as int]@);
        match position_facts(fens[i].as_str()) {
            Ok(position) => {
                mask.push(on_turn(side_is_white, position.white_to_move));
            },
            Err(fault) => {
                proof {
                    assert forall|j: int| 0 <= j < i implies position_reading(
                        #[trigger] texts[j],
                    ) is Ok by {
                        assert(texts.take(i as int)[j] == texts[j]);
                    }
                }
                return Err(fen_error(fault, fens[i].as_str(), Task::CheckingTurn));
            },
        }
        proof {
            let shorter = texts.take(i as int);
            let longer = texts.take(i + 1);
            assert forall|j: int| 0 <= j < longer.len() implies (position_reading(
                #[trigger] longer[j],
            ) matches Ok(position) && mask@[j] == (position.white_to_move == side_is_white)) by {
                if j < i {
                    assert(shorter[j] == longer[j]);
                }
            }
        }
        i += 1;
    }
    assert(fens.deep_view().take(fens.len() as int) =~= fens.deep_view());
    Ok(mask)
}

} // verus!
