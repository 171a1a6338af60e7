//! The accumulator for the engine's `info` lines.
//!
//! A search reports its progress in lines of whitespace-separated fields.
//! [`read_info`] says what one line reports; [`InfoParser`] keeps the latest
//! report per rank and turns it into an [`EvalPayload`] when the search ends.

use crate::text::join_spaced;
use crate::text::join_with_spaces;
use crate::text::parse_i32;
use crate::text::parse_u32;
use crate::text::parse_u64;
use crate::text::read_i32;
use crate::text::read_u32;
use crate::text::read_u64;
use crate::text::same_text;
use crate::text::split_whitespace;
use crate::text::tokens;
use vstd::prelude::*;

verus! {

// ---------------------------------------------------------------------------
// Results
// ---------------------------------------------------------------------------

/// One reported line of play: its rank (1 is the engine's first choice), its
/// score, either in centipawns or as a distance to mate, and its moves in
/// coordinate notation.
#[derive(Debug)]
pub struct PvEntry {
    pub rank: u32,
    pub cp: Option<i32>,
    pub mate: Option<i32>,
    pub moves: Vec<String>,
}

/// The mathematical content of a [`PvEntry`].
pub struct PvLine {
    pub rank: u32,
    pub cp: Option<i32>,
    pub mate: Option<i32>,
    pub moves: Seq<Seq<char>>,
}

impl PvLine {
    /// A line never carries both kinds of score.
    pub open spec fn exclusive(self) -> bool {
        !(self.cp is Some && self.mate is Some)
    }

    /// The score of the line as one number: the centipawns where there are
    /// any, else the distance to mate.
    pub open spec fn score(self) -> Option<i32> {
        if self.cp is Some {
            self.cp
        } else {
            self.mate
        }
    }
}

impl PvEntry {
    /// The score of the line as one number.
    pub fn score(&self) -> (out: Option<i32>)
        ensures
            out == self@.score(),
    {
        match self.cp {
            Some(cp) => Some(cp),
            None => self.mate,
        }
    }

    /// The moves, joined by single spaces.
    pub fn moves_text(&self) -> (out: String)
        ensures
            out@ == join_spaced(self@.moves),
    {
        join_with_spaces(&self.moves)
    }
}

impl View for PvEntry {
    type V = PvLine;

    open spec fn view(&self) -> PvLine {
        PvLine { rank: self.rank, cp: self.cp, mate: self.mate, moves: self.moves.deep_view() }
    }
}

/// The evaluation of one position.
#[derive(Debug)]
pub struct EvalPayload {
    /// The position, as the caller gave it.
    pub fen: String,
    /// The last search depth that the engine reported.
    pub depth: u32,
    /// The nodes searched, in thousands.
    pub knodes: u64,
    /// The lines of play, by ascending rank.
    pub pvs: Vec<PvEntry>,
}

/// The mathematical content of an [`EvalPayload`].
pub struct Evaluation {
    pub fen: Seq<char>,
    pub depth: u32,
    pub knodes: u64,
    pub pvs: Seq<PvLine>,
}

/// The lines of play of `pvs`, one by one.
pub open spec fn lines_of(pvs: Seq<PvEntry>) -> Seq<PvLine> {
    Seq::new(pvs.len(), |i: int| pvs[i]@)
}

impl View for EvalPayload {
    type V = Evaluation;

    open spec fn view(&self) -> Evaluation {
        Evaluation {
            fen: self.fen@,
            depth: self.depth,
            knodes: self.knodes,
            pvs: lines_of(self.pvs@),
        }
    }
}

// ---------------------------------------------------------------------------
// What one line reports
// ---------------------------------------------------------------------------

/// What one `info` line reports.
#[derive(Debug)]
pub struct InfoLine {
    /// The search depth, if the line names one.
    pub depth: Option<u32>,
    /// The total of nodes searched, if the line names one.
    pub nodes: Option<u64>,
    /// The rank that the score and the moves belong to.
    pub rank: u32,
    pub cp: Option<i32>,
    pub mate: Option<i32>,
    /// The moves; empty if the line gives none.
    pub moves: Vec<String>,
}

/// The mathematical content of an [`InfoLine`].
pub struct LineReport {
    pub depth: Option<u32>,
    pub nodes: Option<u64>,
    pub rank: u32,
    pub cp: Option<i32>,
    pub mate: Option<i32>,
    pub moves: Seq<Seq<char>>,
}

impl View for InfoLine {
    type V = LineReport;

    open spec fn view(&self) -> LineReport {
        LineReport {
            depth: self.depth,
            nodes: self.nodes,
            rank: self.rank,
            cp: self.cp,
            mate: self.mate,
            moves: self.moves.deep_view(),
        }
    }
}

impl LineReport {
    /// What a line without any field reports: rank 1 and nothing else.
    pub open spec fn blank() -> LineReport {
        LineReport {
            depth: None,
            nodes: None,
            rank: 1,
            cp: None,
            mate: None,
            moves: Seq::empty(),
        }
    }

    /// Whether the line gives moves, and so an entry for its rank.
    pub open spec fn bears_line(self) -> bool {
        self.moves.len() > 0
    }

    /// The entry that the line gives for its rank.
    pub open spec fn line(self) -> PvLine {
        PvLine { rank: self.rank, cp: self.cp, mate: self.mate, moves: self.moves }
    }
}

/// The rank that a `multipv` field names: at least 1.
pub open spec fn rank_of(n: u32) -> u32 {
    if n < 1 {
        1
    } else {
        n
    }
}

/// What the fields `fields[i..]` add to the report `acc`.
///
/// Each keyword takes the field that follows it, whether or not that field
/// can be read: `depth`, `nodes` and `multipv` keep the earlier value when it
/// cannot, `score cp` and `score mate` then leave the line without a score.
/// Either kind of score clears the other. `pv` takes all the fields that
/// follow as moves. Any other field is passed over.
pub open spec fn scan(fields: Seq<Seq<char>>, i: int, acc: LineReport) -> LineReport
    decreases fields.len() - i,
{
    if i < 0 || i >= fields.len() {
        acc
    } else if fields[i] == "depth"@ {
        if i + 1 < fields.len() {
            match read_u32(fields[i + 1]) {
                Some(depth) => scan(fields, i + 2, LineReport { depth: Some(depth), ..acc }),
                None => scan(fields, i + 2, acc),
            }
        } else {
            acc
        }
    } else if fields[i] == "nodes"@ {
        if i + 1 < fields.len() {
            match read_u64(fields[i + 1]) {
                Some(nodes) => scan(fields, i + 2, LineReport { nodes: Some(nodes), ..acc }),
                None => scan(fields, i + 2, acc),
            }
        } else {
            acc
        }
    } else if fields[i] == "multipv"@ {
        if i + 1 < fields.len() {
            match read_u32(fields[i + 1]) {
                Some(n) => scan(fields, i + 2, LineReport { rank: rank_of(n), ..acc }),
                None => scan(fields, i + 2, acc),
            }
        } else {
            acc
        }
    } else if fields[i] == "score"@ {
        if i + 1 >= fields.len() {
            acc
        } else if fields[i + 1] == "cp"@ {
            if i + 2 < fields.len() {
                scan(
                    fields,
                    i + 3,
                    LineReport { cp: read_i32(fields[i + 2]), mate: None, ..acc },
                )
            } else {
                LineReport { cp: None, mate: None, ..acc }
            }
        } else if fields[i + 1] == "mate"@ {
            if i + 2 < fields.len() {
                scan(
                    fields,
                    i + 3,
                    LineReport { mate: read_i32(fields[i + 2]), cp: None, ..acc },
                )
            } else {
                LineReport { cp: None, mate: None, ..acc }
            }
        } else {
            scan(fields, i + 2, acc)
        }
    } else if fields[i] == "pv"@ {
        LineReport { moves: fields.subrange(i + 1, fields.len() as int), ..acc }
    } else {
        scan(fields, i + 1, acc)
    }
}

/// What the line `line` reports.
pub open spec fn report_of(line: Seq<char>) -> LineReport {
    scan(tokens(line), 0, LineReport::blank())
}

/// Scanning never leaves a report with both kinds of score.
pub proof fn lemma_scan_exclusive(fields: Seq<Seq<char>>, i: int, acc: LineReport)
    requires
        !(acc.cp is Some && acc.mate is Some),
    ensures
        !(scan(fields, i, acc).cp is Some && scan(fields, i, acc).mate is Some),
    decreases fields.len() - i,
{
    if i < 0 || i >= fields.len() {
    } else if fields[i] == "depth"@ {
        if i + 1 < fields.len() {
            match read_u32(fields[i + 1]) {
                Some(depth) => lemma_scan_exclusive(
                    fields,
                    i + 2,
                    LineReport { depth: Some(depth), ..acc },
                ),
                None => lemma_scan_exclusive(fields, i + 2, acc),
            }
        }
    } else if fields[i] == "nodes"@ {
        if i + 1 < fields.len() {
            match read_u64(fields[i + 1]) {
                Some(nodes) => lemma_scan_exclusive(
                    fields,
                    i + 2,
                    LineReport { nodes: Some(nodes), ..acc },
                ),
                None => lemma_scan_exclusive(fields, i + 2, acc),
            }
        }
    } else if fields[i] == "multipv"@ {
        if i + 1 < fields.len() {
            match read_u32(fields[i + 1]) {
                Some(n) => lemma_scan_exclusive(
                    fields,
                    i + 2,
                    LineReport { rank: rank_of(n), ..acc },
                ),
                None => lemma_scan_exclusive(fields, i + 2, acc),
            }
        }
    } else if fields[i] == "score"@ {
        if i + 1 >= fields.len() {
        } else if fields[i + 1] == "cp"@ {
            if i + 2 < fields.len() {
                lemma_scan_exclusive(
                    fields,
                    i + 3,
                    LineReport { cp: read_i32(fields[i + 2]), mate: None, ..acc },
                );
            }
        } else if fields[i + 1] == "mate"@ {
            if i + 2 < fields.len() {
                lemma_scan_exclusive(
                    fields,
                    i + 3,
                    LineReport { mate: read_i32(fields[i + 2]), cp: None, ..acc },
                );
            }
        } else {
            lemma_scan_exclusive(fields, i + 2, acc);
        }
    } else if fields[i] == "pv"@ {
    } else {
        lemma_scan_exclusive(fields, i + 1, acc);
    }
}

/// No line reports both kinds of score.
pub proof fn lemma_report_exclusive(line: Seq<char>)
    ensures
        report_of(line).line().exclusive(),
{
    lemma_scan_exclusive(tokens(line), 0, LineReport::blank());
}

/// Reads one `info` line.
pub fn read_info(line: &str) -> (out: InfoLine)
    ensures
        out@ == report_of(line@),
        out@.line().exclusive(),
{
    let mut fields = split_whitespace(line);
    let n = fields.len();
    let ghost all = fields.deep_view();
    let mut depth: Option<u32> = None;
    let mut nodes: Option<u64> = None;
    let mut rank: u32 = 1;
    let mut cp: Option<i32> = None;
    let mut mate: Option<i32> = None;
    let mut i: usize = 0;
    while i < n
        invariant
            i <= n,
            !(cp is Some && mate is Some),
            n == fields.len(),
            all == fields.deep_view(),
            all == tokens(line@),
            report_of(line@) == scan(
                all,
                i as int,
                LineReport { depth, nodes, rank, cp, mate, moves: Seq::empty() },
            ),
        decreases n - i,
    {
        let ghost acc = LineReport { depth, nodes, rank, cp, mate, moves: Seq::empty() };
        assert(all[i as int] == fields[i as int]@);
        let last = i + 1 >= n;
        if !last {
            assert(all[i + 1] == fields[i + 1]@);
        }
        if same_text(fields[i].as_str(), "depth") {
            if last {
                i = n;
            } else {
                match parse_u32(fields[i + 1].as_str()) {
                    Some(value) => {
                        depth = Some(value);
                    },
                    None => {},
                }
                i += 2;
            }
        } else if same_text(fields[i].as_str(), "nodes") {
            if last {
                i = n;
            } else {
                match parse_u64(fields[i + 1].as_str()) {
                    Some(value) => {
                        nodes = Some(value);
                    },
                    None => {},
                }
                i += 2;
            }
        } else if same_text(fields[i].as_str(), "multipv") {
            if last {
                i = n;
            } else {
                match parse_u32(fields[i + 1].as_str()) {
                    Some(value) => {
                        rank = if value < 1 {
                            1
                        } else {
                            value
                        };
                    },
                    None => {},
                }
                i += 2;
            }
        } else if same_text(fields[i].as_str(), "score") {
            if last {
                i = n;
            } else if same_text(fields[i + 1].as_str(), "cp") {
                if i + 2 < n {
                    assert(all[i + 2] == fields[i + 2]@);
                    cp = parse_i32(fields[i + 2].as_str());
                    mate = None;
                    i += 3;
                } else {
                    cp = None;
                    mate = None;
                    i = n;
                }
            } else if same_text(fields[i + 1].as_str(), "mate") {
                if i + 2 < n {
                    assert(all[i + 2] == fields[i + 2]@);
                    mate = parse_i32(fields[i + 2].as_str());
                    cp = None;
                    i += 3;
                } else {
                    cp = None;
                    mate = None;
                    i = n;
                }
            } else {
                i += 2;
            }
        } else if same_text(fields[i].as_str(), "pv") {
            let moves = fields.split_off(i + 1);
            assert(moves.deep_view() =~= all.subrange(i + 1, n as int));
            return InfoLine { depth, nodes, rank, cp, mate, moves };
        } else {
            i += 1;
        }
    }
    let moves: Vec<String> = Vec::new();
    assert(moves.deep_view() =~= Seq::<Seq<char>>::empty());
    InfoLine { depth, nodes, rank, cp, mate, moves }
}

// ---------------------------------------------------------------------------
// The accumulator
// ---------------------------------------------------------------------------

/// What a parser has gathered: the last depth and node count reported, and
/// the latest line of play for each rank.
pub struct ParserState {
    pub depth: u32,
    pub nodes: u64,
    pub lines: Map<u32, PvLine>,
}

impl ParserState {
    /// The state before any line: nothing reported.
    pub open spec fn initial() -> ParserState {
        ParserState { depth: 0, nodes: 0, lines: Map::empty() }
    }

    /// No rank holds both kinds of score.
    pub open spec fn exclusive(self) -> bool {
        forall|r: u32| self.lines.contains_key(r) ==> (#[trigger] self.lines[r]).exclusive()
    }
}

/// The state after a line that reports `report`: a depth or node count
/// replaces the earlier one, and a line of play replaces the earlier line of
/// its rank.
pub open spec fn apply(state: ParserState, report: LineReport) -> ParserState {
    ParserState {
        depth: match report.depth {
            Some(depth) => depth,
            None => state.depth,
        },
        nodes: match report.nodes {
            Some(nodes) => nodes,
            None => state.nodes,
        },
        lines: if report.bears_line() {
            state.lines.insert(report.rank, report.line())
        } else {
            state.lines
        },
    }
}

/// Whether `pvs` lists exactly the entries of `lines`, by ascending rank.
pub open spec fn lists_by_rank(pvs: Seq<PvLine>, lines: Map<u32, PvLine>) -> bool {
    &&& forall|i: int, j: int|
        0 <= i < j < pvs.len() ==> (#[trigger] pvs[i]).rank < (#[trigger] pvs[j]).rank
    &&& forall|i: int|
        0 <= i < pvs.len() ==> lines.contains_key((#[trigger] pvs[i]).rank) && lines[pvs[i].rank]
            == pvs[i]
    &&& forall|r: u32| #[trigger]
        lines.contains_key(r) ==> exists|i: int| 0 <= i < pvs.len() && (#[trigger] pvs[i]).rank == r
}

/// Whether `result` is the evaluation of `fen` that `state` adds up to: the
/// position as given, the last depth, the node count in thousands, rounded
/// down, and the lines of play by ascending rank.
pub open spec fn sums_up(result: Evaluation, fen: Seq<char>, state: ParserState) -> bool {
    &&& result.fen == fen
    &&& result.depth == state.depth
    &&& result.knodes == state.nodes / 1000
    &&& lists_by_rank(result.pvs, state.lines)
}

/// Gathers what the `info` lines of one search report.
pub struct InfoParser {
    depth: u32,
    nodes: u64,
    /// One entry per rank, by ascending rank.
    entries: Vec<PvEntry>,
    lines: Ghost<Map<u32, PvLine>>,
}

impl View for InfoParser {
    type V = ParserState;

    closed spec fn view(&self) -> ParserState {
        ParserState { depth: self.depth, nodes: self.nodes, lines: self.lines@ }
    }
}

impl InfoParser {
    #[verifier::type_invariant]
    spec fn inv(self) -> bool {
        &&& lists_by_rank(lines_of(self.entries@), self.lines@)
        &&& forall|i: int| 0 <= i < self.entries.len() ==> (#[trigger] self.entries[i])@.exclusive()
    }

    /// A parser that has seen no line.
    pub fn new() -> (out: Self)
        ensures
            out@ == ParserState::initial(),
    {
        InfoParser { depth: 0, nodes: 0, entries: Vec::new(), lines: Ghost(Map::empty()) }
    }

    /// Takes in one `info` line.
    pub fn consume(&mut self, line: &str)
        ensures
            final(self)@ == apply(old(self)@, report_of(line@)),
            final(self)@.exclusive(),
    {
        let info = read_info(line);
        self.absorb(info);
    }

    fn absorb(&mut self, info: InfoLine)
        requires
            info@.line().exclusive(),
        ensures
            final(self)@ == apply(old(self)@, info@),
            final(self)@.exclusive(),
    {
        proof {
            use_type_invariant(&*self);
        }
        let mut previous = InfoParser::new();
        core::mem::swap(self, &mut previous);
        proof {
            use_type_invariant(&previous);
        }
        let ghost before = lines_of(previous.entries@);
        let ghost known = previous.lines@;
        let depth = match info.depth {
            Some(depth) => depth,
            None => previous.depth,
        };
        let nodes = match info.nodes {
            Some(nodes) => nodes,
            None => previous.nodes,
        };
        let mut entries = previous.entries;
        if info.moves.len() == 0 {
            *self = InfoParser { depth, nodes, entries, lines: Ghost(known) };
            return ;
        }
        let rank = info.rank;
        let entry = PvEntry { rank, cp: info.cp, mate: info.mate, moves: info.moves };
        let ghost line = entry@;
        let mut k: usize = 0;
        while k < entries.len() && entries[k].rank < rank
            invariant
                k <= entries.len(),
                forall|j: int| 0 <= j < k ==> (#[trigger] entries[j]).rank < rank,
            decreases entries.len() - k,
        {
            k += 1;
        }
        let ghost after_map = known.insert(rank, line);
        if k < entries.len() && entries[k].rank == rank {
            entries.set(k, entry);
            proof {
                let after = lines_of(entries@);
                assert forall|i: int| 0 <= i < after.len() implies after[i] == (if i == k {
                    line
                } else {
                    before[i]
                }) by {}
                assert forall|r: u32| #[trigger] after_map.contains_key(r) implies exists|i: int|
                    0 <= i < after.len() && (#[trigger] after[i]).rank == r by {
                    if r == rank {
                        assert(after[k as int].rank == r);
                    } else {
                        assert(known.contains_key(r));
                        let i = choose|i: int| 0 <= i < before.len() && (#[trigger] before[i]).rank == r;
                        assert(after[i].rank == r);
                    }
                }
                assert(lists_by_rank(after, after_map));
            }
        } else {
            entries.insert(k, entry);
            proof {
                let after = lines_of(entries@);
                assert forall|i: int| 0 <= i < after.len() implies after[i] == (if i < k {
                    before[i]
                } else if i == k {
                    line
                } else {
                    before[i - 1]
                }) by {}
                assert forall|i: int, j: int| 0 <= i < j < after.len() implies (#[trigger] after[i]).rank
                    < (#[trigger] after[j]).rank by {
                    if j > k {
                        assert(before[j - 1].rank >= before[k as int].rank);
                    }
                }
                assert forall|i: int| 0 <= i < after.len() implies after_map.contains_key(
                    (#[trigger] after[i]).rank,
                ) && after_map[after[i].rank] == after[i] by {
                    if i < k {
                        assert(before[i].rank < rank);
                    } else if i > k {
                        assert(before[i - 1].rank >= before[k as int].rank);
                    }
                }
                assert forall|r: u32| #[trigger] after_map.contains_key(r) implies exists|i: int|
                    0 <= i < after.len() && (#[trigger] after[i]).rank == r by {
                    if r == rank {
                        assert(after[k as int].rank == r);
                    } else {
                        assert(known.contains_key(r));
                        let i = choose|i: int| 0 <= i < before.len() && (#[trigger] before[i]).rank == r;
                        if i < k {
                            assert(after[i].rank == r);
                        } else {
                            assert(after[i + 1].rank == r);
                        }
                    }
                }
                assert(lists_by_rank(after, after_map));
            }
        }
        *self = InfoParser { depth, nodes, entries, lines: Ghost(after_map) };
    }

    /// Ends the search: the evaluation of `fen` that the lines taken in add
    /// up to. The node count is given in thousands, rounded down.
    pub fn into_payload(self, fen: &str) -> (out: EvalPayload)
        ensures
            sums_up(out@, fen@, self@),
            forall|i: int| 0 <= i < out@.pvs.len() ==> (#[trigger] out@.pvs[i]).exclusive(),
    {
        proof {
            use_type_invariant(&self);
        }
        EvalPayload {
            fen: fen.to_owned(),
            depth: self.depth,
            knodes: self.nodes / 1000,
            pvs: self.entries,
        }
    }
}


} // verus!
