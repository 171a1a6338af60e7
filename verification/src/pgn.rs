//! The main line of a game record.
//!
//! A record is read token by token. Tags, comments, move numbers, numeric
//! annotations and everything inside a variation are passed over; what is
//! left up to the result of the game are the moves of the main line.

use crate::chess::san_syntax;
use crate::fen::ChessError;
use crate::fen::ChessFailure;
use crate::chess::san_syntax_fault;
use crate::text::chars_of;
use crate::text::count_char;
use crate::text::count_of;
use crate::text::lemma_count_of;
use crate::text::lemma_tokens_fit;
use crate::text::lemma_total_length_grows;
use crate::text::same_text;
use crate::text::split_whitespace;
use crate::text::tokens;
use crate::text::total_length;
use vstd::prelude::*;
use vstd::string::StrSliceExecFns;
use vstd::string::StringExecFns;

verus! {

/// Whether the token `raw` belongs to a tag or a comment: it begins with a
/// square bracket, a brace or a quotation mark, or ends with a square
/// bracket.
pub open spec fn is_aside(raw: Seq<char>) -> bool {
    raw.len() > 0 && (raw[0] == '[' || raw[0] == '{' || raw.last() == ']' || raw[0] == '"')
}

/// Whether `c` is a round bracket.
pub open spec fn is_paren(c: char) -> bool {
    c == '(' || c == ')'
}

/// The index of the first character of `s` from `i` on that is no round
/// bracket, or the length of `s`.
pub open spec fn past_parens(s: Seq<char>, i: int) -> int
    decreases s.len() - i,
{
    if 0 <= i < s.len() && is_paren(s[i]) {
        past_parens(s, i + 1)
    } else {
        i
    }
}

/// The index behind the last character of `s` before `j` that is no round
/// bracket, but not less than `from`.
pub open spec fn before_parens(s: Seq<char>, from: int, j: int) -> int
    decreases j,
{
    if 0 <= from < j <= s.len() && is_paren(s[j - 1]) {
        before_parens(s, from, j - 1)
    } else {
        j
    }
}

/// `s` without the round brackets at its two ends.
pub open spec fn strip_parens(s: Seq<char>) -> Seq<char> {
    let from = past_parens(s, 0);
    s.subrange(from, before_parens(s, from, s.len() as int))
}

/// Whether `token` gives the result of a game, and so ends the record.
pub open spec fn is_result(token: Seq<char>) -> bool {
    token == "*"@ || token == "1-0"@ || token == "0-1"@ || token == "1/2-1/2"@
}

/// What a token is taken for.
pub enum Reading {
    /// Nothing of the main line.
    Skip,
    /// The end of the record.
    Stop,
    /// A move of the main line.
    Move(Seq<char>),
}

/// How deep in variations the record is after the token `raw`, where it was
/// `depth` deep before it. The count can fall below zero where more
/// brackets close in a variation than were open.
pub open spec fn depth_after(raw: Seq<char>, depth: int) -> int {
    let opened = depth + count_of(raw, '(');
    let closed = count_of(raw, ')');
    if is_aside(raw) {
        depth
    } else if opened > 0 {
        opened - closed
    } else if opened - closed > 0 {
        opened - closed
    } else {
        0
    }
}

/// What the token `raw` is taken for, where the record was `depth` deep in
/// variations before it.
pub open spec fn reading_of(raw: Seq<char>, depth: int) -> Reading {
    let token = strip_parens(raw);
    if is_aside(raw) || depth + count_of(raw, '(') > 0 {
        Reading::Skip
    } else if token.len() == 0 || token.contains('.') {
        Reading::Skip
    } else if is_result(token) {
        Reading::Stop
    } else if token[0] == '$' {
        Reading::Skip
    } else {
        Reading::Move(token)
    }
}

/// What a token is taken for.
#[derive(Debug)]
pub enum TokenReading {
    Skip,
    Stop,
    Move(String),
}

impl View for TokenReading {
    type V = Reading;

    open spec fn view(&self) -> Reading {
        match self {
            TokenReading::Skip => Reading::Skip,
            TokenReading::Stop => Reading::Stop,
            TokenReading::Move(token) => Reading::Move(token@),
        }
    }
}

/// Why a game record was refused.
#[derive(Debug)]
pub enum PgnError {
    /// A token of the main line is no move in standard algebraic notation.
    InvalidSan { token: String, detail: String },
    /// A move of the main line cannot be played where it stands.
    IllegalSan { detail: String },
    /// A position could not be brought into canonical form.
    Canonical(ChessError),
    /// A position could not be read back from its FEN.
    Fen { detail: String },
    /// A move has no square that it starts from.
    NoOrigin,
}

/// The mathematical content of a [`PgnError`].
pub enum PgnFailure {
    InvalidSan { token: Seq<char>, detail: Seq<char> },
    IllegalSan { detail: Seq<char> },
    Canonical(ChessFailure),
    Fen { detail: Seq<char> },
    NoOrigin,
}

impl View for PgnError {
    type V = PgnFailure;

    open spec fn view(&self) -> PgnFailure {
        match self {
            PgnError::InvalidSan { token, detail } => PgnFailure::InvalidSan {
                token: token@,
                detail: detail@,
            },
            PgnError::IllegalSan { detail } => PgnFailure::IllegalSan { detail: detail@ },
            PgnError::Canonical(e) => PgnFailure::Canonical(e@),
            PgnError::Fen { detail } => PgnFailure::Fen { detail: detail@ },
            PgnError::NoOrigin => PgnFailure::NoOrigin,
        }
    }
}

impl PgnFailure {
    /// The failure in words.
    pub open spec fn message(self) -> Seq<char> {
        match self {
            PgnFailure::InvalidSan { token, detail } => "Invalid SAN token in PGN: "@ + token,
            PgnFailure::IllegalSan { detail } => detail,
            PgnFailure::Canonical(e) => e.message(),
            PgnFailure::Fen { detail } => detail,
            PgnFailure::NoOrigin => "Move lacks origin square"@,
        }
    }
}

impl PgnError {
    /// The failure in words.
    pub fn message(&self) -> (out: String)
        ensures
            out@ == self@.message(),
    {
        match self {
            PgnError::InvalidSan { token, detail } => {
                let mut out = String::from_str("Invalid SAN token in PGN: ");
                out.append(token.as_str());
                out
            },
            PgnError::IllegalSan { detail } => detail.clone(),
            PgnError::Canonical(e) => e.message(),
            PgnError::Fen { detail } => detail.clone(),
            PgnError::NoOrigin => String::from_str("Move lacks origin square"),
        }
    }
}

/// Reads one token of a record that is `depth` deep in variations: what the
/// token is taken for, and how deep the record is after it.
pub fn read_token(raw: &str, depth: i128) -> (out: (TokenReading, i128))
    requires
        -(u64::MAX as int) <= depth <= u64::MAX as int,
    ensures
        out.0@ == reading_of(raw@, depth as int),
        out.1 == depth_after(raw@, depth as int),
{
    let chars = chars_of(raw);
    let n = chars.len();
    if n > 0 && (chars[0] == '[' || chars[0] == '{' || chars[n - 1] == ']' || chars[0] == '"') {
        return (TokenReading::Skip, depth);
    }
    let opened: i128 = depth + count_char(&chars, '(') as i128;
    let closed: i128 = count_char(&chars, ')') as i128;
    if opened > 0 {
        return (TokenReading::Skip, opened - closed);
    }
    let after: i128 = if opened - closed > 0 {
        opened - closed
    } else {
        0
    };
    let mut from: usize = 0;
    while from < n && (chars[from] == '(' || chars[from] == ')')
        invariant
            from <= n,
            n == chars.len(),
            chars@ == raw@,
            past_parens(raw@, 0) == past_parens(raw@, from as int),
        decreases n - from,
    {
        from += 1;
    }
    let mut to: usize = n;
    while to > from && (chars[to - 1] == '(' || chars[to - 1] == ')')
        invariant
            from <= to <= n,
            n == chars.len(),
            chars@ == raw@,
            before_parens(raw@, from as int, n as int) == before_parens(
                raw@,
                from as int,
                to as int,
            ),
        decreases to,
    {
        to -= 1;
    }
    let token = raw.substring_char(from, to);
    assert(token@ == strip_parens(raw@));
    if from == to {
        return (TokenReading::Skip, after);
    }
    let dots = count_char(&chars_of(token), '.');
    proof {
        lemma_count_of(token@, '.');
    }
    if dots > 0 {
        return (TokenReading::Skip, after);
    }
    if same_text(token, "*") || same_text(token, "1-0") || same_text(token, "0-1") || same_text(
        token,
        "1/2-1/2",
    ) {
        return (TokenReading::Stop, after);
    }
    assert(token@[0] == raw@[from as int]);
    if chars[from] == '$' {
        return (TokenReading::Skip, after);
    }
    (TokenReading::Move(token.to_owned()), after)
}

/// The moves of the main line among `tokens[i..]`, where the record is
/// `depth` deep in variations, or the failure of the first that is no move
/// in standard algebraic notation.
pub open spec fn mainline_from(tokens: Seq<Seq<char>>, i: int, depth: int) -> Result<
    Seq<Seq<char>>,
    PgnFailure,
>
    decreases tokens.len() - i,
{
    if i < 0 || i >= tokens.len() {
        Ok(Seq::empty())
    } else {
        let after = depth_after(tokens[i], depth);
        match reading_of(tokens[i], depth) {
            Reading::Skip => mainline_from(tokens, i + 1, after),
            Reading::Stop => Ok(Seq::empty()),
            Reading::Move(token) => match san_syntax_fault(token) {
                Some(detail) => Err(PgnFailure::InvalidSan { token, detail }),
                None => match mainline_from(tokens, i + 1, after) {
                    Ok(rest) => Ok(seq![token] + rest),
                    Err(e) => Err(e),
                },
            },
        }
    }
}

/// The moves of the main line of the record `text`.
pub open spec fn mainline(text: Seq<char>) -> Result<Seq<Seq<char>>, PgnFailure> {
    mainline_from(tokens(text), 0, 0)
}

/// `rest` with the moves `found` before it.
pub open spec fn after_moves(
    found: Seq<Seq<char>>,
    rest: Result<Seq<Seq<char>>, PgnFailure>,
) -> Result<Seq<Seq<char>>, PgnFailure> {
    match rest {
        Ok(moves) => Ok(found + moves),
        Err(e) => Err(e),
    }
}

/// The view of moves or an error.
pub open spec fn moves_or_failure(out: Result<Vec<String>, PgnError>) -> Result<
    Seq<Seq<char>>,
    PgnFailure,
> {
    match out {
        Ok(moves) => Ok(moves.deep_view()),
        Err(e) => Err(e@),
    }
}

/// The depth in variations stays within what the tokens read so far can
/// open and close.
proof fn lemma_depth_bound(raw: Seq<char>, depth: int, bound: int)
    requires
        -bound <= depth <= bound,
    ensures
        -(bound + raw.len()) <= depth_after(raw, depth) <= bound + raw.len(),
{
    lemma_count_of(raw, '(');
    lemma_count_of(raw, ')');
}

/// Reads the moves of the main line of a game record, each as it stands in
/// the record.
pub fn parse_mainline_san(text: &str) -> (out: Result<Vec<String>, PgnError>)
    ensures
        moves_or_failure(out) == mainline(text@),
{
    let fields = split_whitespace(text);
    let ghost all = fields.deep_view();
    let mut sans: Vec<String> = Vec::new();
    let mut depth: i128 = 0;
    let mut i: usize = 0;
    proof {
        lemma_tokens_fit(text@);
        assert(all.take(0) =~= Seq::<Seq<char>>::empty());
        assert(sans.deep_view() =~= Seq::<Seq<char>>::empty());
        assert(Seq::<Seq<char>>::empty() + mainline_from(all, 0, 0)->Ok_0 =~= mainline_from(
            all,
            0,
            0,
        )->Ok_0);
    }
    while i < fields.len()
        invariant
            i <= fields.len(),
            all == fields.deep_view(),
            all == tokens(text@),
            total_length(all) <= usize::MAX,
            -total_length(all.take(i as int)) <= depth <= total_length(all.take(i as int)),
            mainline(text@) == after_moves(sans.deep_view(), mainline_from(all, i as int, depth as int)),
        decreases fields.len() - i,
    {
        proof {
            lemma_total_length_grows(all, i as int);
            lemma_total_length_grows(all, i + 1);
            assert(all.take(i + 1).drop_last() =~= all.take(i as int));
            assert(all.take(i + 1).last() == fields[i as int]@);
            lemma_depth_bound(fields[i as int]@, depth as int, total_length(all.take(i as int)) as int);
        }
        let (reading, after) = read_token(fields[i].as_str(), depth);
        match reading {
            TokenReading::Skip => {},
            TokenReading::Stop => {
                assert(sans.deep_view() + Seq::<Seq<char>>::empty() =~= sans.deep_view());
                return Ok(sans);
            },
            TokenReading::Move(token) => {
                match san_syntax(token.as_str()) {
                    Ok(_) => {
                        let ghost before = sans.deep_view();
                        sans.push(token);
                        proof {
                            let rest = mainline_from(all, i + 1, after as int);
                            if rest is Ok {
                                assert(before + (seq![token@] + rest->Ok_0) =~= sans.deep_view()
                                    + rest->Ok_0);
                            }
                        }
                    },
                    Err(detail) => {
                        return Err(PgnError::InvalidSan { token, detail });
                    },
                }
            },
        }
        depth = after;
        i += 1;
    }
    assert(sans.deep_view() + Seq::<Seq<char>>::empty() =~= sans.deep_view());
    Ok(sans)
}

} // verus!
