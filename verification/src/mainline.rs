//! The positions along the main line of a game, and the moves of one side
//! listed by how often that side plays them.

use crate::analysis::counts;
use crate::analysis::fingerprint;
use crate::analysis::fingerprint_of;
use crate::analysis::count_frequencies;
use crate::analysis::rank_node;
use crate::analysis::ranked_node;
use crate::analysis::EntryView;
use crate::analysis::Fingerprint;
use crate::analysis::MoveEntry;
use crate::analysis::NodeAnalysis;
use crate::analysis::NodeView;
use crate::analysis::Tally;
use crate::chess::move_facts;
use crate::chess::move_reading;
use crate::chess::play_move;
use crate::chess::position_after;
use crate::chess::position_facts;
use crate::chess::position_reading;
use crate::chess::san_facts;
use crate::chess::san_reading;
use crate::chess::FenFailure;
use crate::chess::FenFault;
use crate::chess::PlyFailure;
use crate::chess::PlyFault;
use crate::fen::canonical_fen;
use crate::fen::canonicalize_fen_str;
use crate::pgn::PgnError;
use crate::pgn::PgnFailure;
use vstd::prelude::*;
use vstd::string::StringExecFns;

verus! {

/// The FEN of the position that every game starts from.
pub open spec fn start_fen() -> Seq<char> {
    "rnbqkbnr/pppppppp/8/8/8/8/PPPPPPPP/RNBQKBNR w KQkq - 0 1"@
}

// ---------------------------------------------------------------------------
// Along the main line
// ---------------------------------------------------------------------------

/// A position on the main line: its canonical FEN, and who is to move.
#[derive(Debug)]
pub struct Stop {
    pub fen: String,
    pub white_to_move: bool,
}

/// The mathematical content of a [`Stop`].
pub struct StopView {
    pub fen: Seq<char>,
    pub white_to_move: bool,
}

impl DeepView for Stop {
    type V = StopView;

    open spec fn deep_view(&self) -> StopView {
        StopView { fen: self.fen@, white_to_move: self.white_to_move }
    }
}

/// A move of the main line, between the positions before and after it.
#[derive(Debug)]
pub struct Ply {
    pub parent: Stop,
    pub child: Stop,
    /// Whether White makes the move.
    pub white_moved: bool,
    pub uci: String,
    pub san: String,
    /// What makes the move the same as others; nothing for a move that
    /// starts from no square.
    pub fingerprint: Option<Fingerprint>,
}

/// The mathematical content of a [`Ply`].
pub struct PlyView {
    pub parent: StopView,
    pub child: StopView,
    pub white_moved: bool,
    pub uci: Seq<char>,
    pub san: Seq<char>,
    pub fingerprint: Option<Fingerprint>,
}

impl DeepView for Ply {
    type V = PlyView;

    open spec fn deep_view(&self) -> PlyView {
        PlyView {
            parent: self.parent.deep_view(),
            child: self.child.deep_view(),
            white_moved: self.white_moved,
            uci: self.uci@,
            san: self.san@,
            fingerprint: self.fingerprint,
        }
    }
}

/// What a refused FEN says against it.
pub open spec fn fault_detail(fault: FenFailure) -> Seq<char> {
    match fault {
        FenFailure::Syntax(detail) => detail,
        FenFailure::Setup(detail) => detail,
    }
}

fn fault_text(fault: FenFault) -> (out: String)
    ensures
        out@ == fault_detail(fault@),
{
    match fault {
        FenFault::Syntax(detail) => detail,
        FenFault::Setup(detail) => detail,
    }
}

/// The stop at the position with the FEN `fen`: the FEN is brought into
/// canonical form, and the turn is read off that.
pub open spec fn stop_reading(fen: Seq<char>) -> Result<StopView, PgnFailure> {
    match canonical_fen(fen) {
        Err(failure) => Err(PgnFailure::Canonical(failure)),
        Ok(canonical) => match position_reading(canonical) {
            Err(fault) => Err(PgnFailure::Fen { detail: fault_detail(fault) }),
            Ok(position) => Ok(
                StopView { fen: canonical, white_to_move: position.white_to_move },
            ),
        },
    }
}

/// The view of a stop or an error.
pub open spec fn stop_or_failure(out: Result<Stop, PgnError>) -> Result<StopView, PgnFailure> {
    match out {
        Ok(stop) => Ok(stop.deep_view()),
        Err(e) => Err(e@),
    }
}

/// Makes the stop at the position with the FEN `fen`.
pub fn stop_at(fen: &str) -> (out: Result<Stop, PgnError>)
    ensures
        stop_or_failure(out) == stop_reading(fen@),
{
    let canonical = match canonicalize_fen_str(fen) {
        Ok(canonical) => canonical,
        Err(e) => {
            return Err(PgnError::Canonical(e));
        },
    };
    match position_facts(canonical.as_str()) {
        Ok(position) => Ok(Stop { fen: canonical, white_to_move: position.white_to_move }),
        Err(fault) => Err(PgnError::Fen { detail: fault_text(fault) }),
    }
}

/// The move `san` played in the position with the FEN `fen`, and the FEN of
/// the position after it; or why it cannot be played. A move of the side
/// that is asked for must start from a square.
pub open spec fn ply_reading(fen: Seq<char>, san: Seq<char>, player_white: bool) -> Result<
    (PlyView, Seq<char>),
    PgnFailure,
> {
    match san_reading(fen, san) {
        Err(PlyFailure::Position) => match position_reading(fen) {
            Err(fault) => Err(PgnFailure::Fen { detail: fault_detail(fault) }),
            Ok(_) => Err(PgnFailure::NoOrigin),
        },
        Err(PlyFailure::Syntax(detail)) => Err(PgnFailure::InvalidSan { token: san, detail }),
        Err(PlyFailure::Illegal(detail)) => Err(PgnFailure::IllegalSan { detail }),
        Ok(read) => match stop_reading(fen) {
            Err(e) => Err(e),
            Ok(parent) => match (
                position_reading(fen),
                move_reading(fen, read.uci),
                position_after(fen, read.uci),
            ) {
                (Ok(position), Ok(m), Some(next)) => if position.white_to_move == player_white
                    && fingerprint_of(m) is None {
                    Err(PgnFailure::NoOrigin)
                } else {
                    match stop_reading(next) {
                        Err(e) => Err(e),
                        Ok(child) => Ok(
                            (
                                PlyView {
                                    parent,
                                    child,
                                    white_moved: position.white_to_move,
                                    uci: read.uci,
                                    san: read.san,
                                    fingerprint: fingerprint_of(m),
                                },
                                next,
                            ),
                        ),
                    }
                },
                _ => Err(PgnFailure::IllegalSan { detail: "illegal uci"@ }),
            },
        },
    }
}

/// The view of a move with the next position, or of an error.
pub open spec fn ply_or_failure(out: Result<(Ply, String), PgnError>) -> Result<
    (PlyView, Seq<char>),
    PgnFailure,
> {
    match out {
        Ok((ply, next)) => Ok((ply.deep_view(), next@)),
        Err(e) => Err(e@),
    }
}

/// Plays the move `san` in the position with the FEN `fen`.
pub fn read_ply(fen: &str, san: &str, player_white: bool) -> (out: Result<(Ply, String), PgnError>)
    ensures
        ply_or_failure(out) == ply_reading(fen@, san@, player_white),
{
    let read = match san_facts(fen, san) {
        Ok(read) => read,
        Err(PlyFault::Position) => {
            return match position_facts(fen) {
                Err(fault) => Err(PgnError::Fen { detail: fault_text(fault) }),
                Ok(_) => Err(PgnError::NoOrigin),
            };
        },
        Err(PlyFault::Syntax(detail)) => {
            return Err(PgnError::InvalidSan { token: String::from_str(san), detail });
        },
        Err(PlyFault::Illegal(detail)) => {
            return Err(PgnError::IllegalSan { detail });
        },
    };
    let parent = match stop_at(fen) {
        Ok(parent) => parent,
        Err(e) => {
            return Err(e);
        },
    };
    let position = position_facts(fen);
    let m = move_facts(fen, read.uci.as_str());
    let next = play_move(fen, read.uci.as_str());
    match (position, m, next) {
        (Ok(position), Ok(m), Some(next)) => {
            let fingerprint = fingerprint(&m);
            if position.white_to_move == player_white && fingerprint.is_none() {
                return Err(PgnError::NoOrigin);
            }
            match stop_at(next.as_str()) {
                Err(e) => Err(e),
                Ok(child) => Ok(
                    (
                        Ply {
                            parent,
                            child,
                            white_moved: position.white_to_move,
                            uci: read.uci,
                            san: read.san,
                            fingerprint,
                        },
                        next,
                    ),
                ),
            }
        },
        _ => Err(PgnError::IllegalSan { detail: String::from_str("illegal uci") }),
    }
}

/// The moves `sans[i..]` played one after the other from the position with
/// the FEN `fen`, or the failure of the first that cannot be played.
pub open spec fn plies_from(
    fen: Seq<char>,
    sans: Seq<Seq<char>>,
    i: int,
    player_white: bool,
) -> Result<Seq<PlyView>, PgnFailure>
    decreases sans.len() - i,
{
    if i < 0 || i >= sans.len() {
        Ok(Seq::empty())
    } else {
        match ply_reading(fen, sans[i], player_white) {
            Err(e) => Err(e),
            Ok((ply, next)) => match plies_from(next, sans, i + 1, player_white) {
                Ok(rest) => Ok(seq![ply] + rest),
                Err(e) => Err(e),
            },
        }
    }
}

/// `rest` with the moves `found` before it.
pub open spec fn after_plies(
    found: Seq<PlyView>,
    rest: Result<Seq<PlyView>, PgnFailure>,
) -> Result<Seq<PlyView>, PgnFailure> {
    match rest {
        Ok(plies) => Ok(found + plies),
        Err(e) => Err(e),
    }
}

/// The view of moves or an error.
pub open spec fn plies_or_failure(out: Result<Vec<Ply>, PgnError>) -> Result<
    Seq<PlyView>,
    PgnFailure,
> {
    match out {
        Ok(plies) => Ok(plies.deep_view()),
        Err(e) => Err(e@),
    }
}

/// Plays the main line `sans` from the starting position.
pub fn play_mainline(sans: &Vec<String>, player_white: bool) -> (out: Result<Vec<Ply>, PgnError>)
    ensures
        plies_or_failure(out) == plies_from(start_fen(), sans.deep_view(), 0, player_white),
{
    let ghost moves = sans.deep_view();
    let ghost wanted = plies_from(start_fen(), moves, 0, player_white);
    let mut plies: Vec<Ply> = Vec::new();
    let mut fen = String::from_str("rnbqkbnr/pppppppp/8/8/8/8/PPPPPPPP/RNBQKBNR w KQkq - 0 1");
    let mut i: usize = 0;
    proof {
        assert(plies.deep_view() =~= Seq::<PlyView>::empty());
        if wanted is Ok {
            assert(Seq::<PlyView>::empty() + wanted->Ok_0 =~= wanted->Ok_0);
        }
    }
    while i < sans.len()
        invariant
            i <= sans.len(),
            moves == sans.deep_view(),
            wanted == plies_from(start_fen(), moves, 0, player_white),
            wanted == after_plies(
                plies.deep_view(),
                plies_from(fen@, moves, i as int, player_white),
            ),
        decreases sans.len() - i,
    {
        assert(moves[i as int] == sans[i as int]@);
        match read_ply(fen.as_str(), sans[i].as_str(), player_white) {
            Err(e) => {
                return Err(e);
            },
            Ok((ply, next)) => {
                let ghost before = plies.deep_view();
                let ghost rest = plies_from(next@, moves, i + 1, player_white);
                plies.push(ply);
                proof {
                    if rest is Ok {
                        assert(before + (seq![ply.deep_view()] + rest->Ok_0) =~= plies.deep_view()
                            + rest->Ok_0);
                    }
                }
                fen = next;
            },
        }
        i += 1;
    }
    assert(plies.deep_view() + Seq::<PlyView>::empty() =~= plies.deep_view());
    Ok(plies)
}

// ---------------------------------------------------------------------------
// Positions and their moves
// ---------------------------------------------------------------------------

/// A position of the main line with the moves played from it, each by its
/// number in the line.
#[derive(Debug)]
pub struct Group {
    pub fen: String,
    pub white_to_move: bool,
    pub plies: Vec<usize>,
}

/// The mathematical content of a [`Group`].
pub struct GroupView {
    pub fen: Seq<char>,
    pub white_to_move: bool,
    pub plies: Seq<usize>,
}

impl DeepView for Group {
    type V = GroupView;

    open spec fn deep_view(&self) -> GroupView {
        GroupView { fen: self.fen@, white_to_move: self.white_to_move, plies: self.plies@ }
    }
}

/// The index of the first group of `groups` with the FEN `fen`, or the
/// number of groups if there is none.
pub open spec fn group_index(groups: Seq<GroupView>, fen: Seq<char>) -> int
    decreases groups.len(),
{
    if groups.len() == 0 {
        0
    } else if groups[0].fen == fen {
        0
    } else {
        1 + group_index(groups.drop_first(), fen)
    }
}

/// The index lies within the groups or just behind them; a group found has
/// the FEN looked for.
pub proof fn lemma_group_index(groups: Seq<GroupView>, fen: Seq<char>)
    ensures
        0 <= group_index(groups, fen) <= groups.len(),
        group_index(groups, fen) < groups.len() ==> groups[group_index(groups, fen)].fen == fen,
    decreases groups.len(),
{
    if groups.len() > 0 && groups[0].fen != fen {
        lemma_group_index(groups.drop_first(), fen);
    }
}

/// `groups` with a group for `stop`, which is added at the end where the
/// position has none yet.
pub open spec fn with_stop(groups: Seq<GroupView>, stop: StopView) -> Seq<GroupView> {
    if group_index(groups, stop.fen) < groups.len() {
        groups
    } else {
        groups.push(
            GroupView { fen: stop.fen, white_to_move: stop.white_to_move, plies: Seq::empty() },
        )
    }
}

/// `groups` after the move number `index`: the move is added to the group
/// of the position before it, and the position after it has a group.
pub open spec fn with_ply(groups: Seq<GroupView>, ply: PlyView, index: usize) -> Seq<GroupView> {
    let known = with_stop(groups, ply.parent);
    let k = group_index(known, ply.parent.fen);
    let added = known.update(k, GroupView { plies: known[k].plies.push(index), ..known[k] });
    with_stop(added, ply.child)
}

/// The positions of the main line `plies` that starts at `root`, in the
/// order in which they are first reached, each with the moves played from
/// it.
pub open spec fn grouped(root: StopView, plies: Seq<PlyView>) -> Seq<GroupView>
    decreases plies.len(),
{
    if plies.len() == 0 {
        with_stop(Seq::empty(), root)
    } else {
        with_ply(grouped(root, plies.drop_last()), plies.last(), (plies.len() - 1) as usize)
    }
}

/// Whether every move of every group is one of the first `n` moves.
pub open spec fn groups_within(groups: Seq<GroupView>, n: int) -> bool {
    forall|g: int, j: int|
        0 <= g < groups.len() && 0 <= j < groups[g].plies.len() ==> (#[trigger] groups[g].plies[j])
            < n
}

fn find_group(groups: &Vec<Group>, fen: &str) -> (out: usize)
    ensures
        out == group_index(groups.deep_view(), fen@),
        out <= groups.len(),
{
    let ghost all = groups.deep_view();
    let mut k: usize = 0;
    assert(all.skip(0) =~= all);
    while k < groups.len()
        invariant
            k <= groups.len(),
            all == groups.deep_view(),
            group_index(all, fen@) == k + group_index(all.skip(k as int), fen@),
        decreases groups.len() - k,
    {
        assert(all.skip(k as int)[0] == groups[k as int].deep_view());
        if same_fen(groups[k].fen.as_str(), fen) {
            return k;
        }
        assert(all.skip(k as int).drop_first() =~= all.skip(k + 1));
        k += 1;
    }
    k
}

fn same_fen(a: &str, b: &str) -> (out: bool)
    ensures
        out == (a@ == b@),
{
    crate::text::same_text(a, b)
}

fn add_stop(groups: &mut Vec<Group>, stop: &Stop)
    ensures
        final(groups).deep_view() == with_stop(old(groups).deep_view(), stop.deep_view()),
{
    let k = find_group(groups, stop.fen.as_str());
    if k == groups.len() {
        let ghost before = groups.deep_view();
        let plies: Vec<usize> = Vec::new();
        groups.push(Group { fen: stop.fen.clone(), white_to_move: stop.white_to_move, plies });
        assert(groups.deep_view() =~= before.push(
            GroupView {
                fen: stop.fen@,
                white_to_move: stop.white_to_move,
                plies: Seq::empty(),
            },
        ));
    }
}

/// The positions of the main line `plies` that starts at `root`, each with
/// the moves played from it.
pub fn group_plies(root: &Stop, plies: &Vec<Ply>) -> (out: Vec<Group>)
    ensures
        out.deep_view() == grouped(root.deep_view(), plies.deep_view()),
        groups_within(out.deep_view(), plies.len() as int),
{
    let ghost line = plies.deep_view();
    let mut groups: Vec<Group> = Vec::new();
    assert(groups.deep_view() =~= Seq::<GroupView>::empty());
    add_stop(&mut groups, root);
    let mut i: usize = 0;
    assert(line.take(0) =~= Seq::<PlyView>::empty());
    while i < plies.len()
        invariant
            i <= plies.len(),
            line == plies.deep_view(),
            groups.deep_view() == grouped(root.deep_view(), line.take(i as int)),
            groups_within(groups.deep_view(), i as int),
        decreases plies.len() - i,
    {
        let ghost earlier = groups.deep_view();
        assert(line.take(i + 1).drop_last() =~= line.take(i as int));
        assert(line.take(i + 1).last() == plies[i as int].deep_view());
        add_stop(&mut groups, &plies[i].parent);
        let ghost known = groups.deep_view();
        let k = find_group(&groups, plies[i].parent.fen.as_str());
        proof {
            lemma_group_index(earlier, plies[i as int].parent.fen@);
            lemma_group_index(known, plies[i as int].parent.fen@);
            if group_index(earlier, plies[i as int].parent.fen@) >= earlier.len() {
                lemma_group_index_of_last(earlier, plies[i as int].parent.deep_view());
            }
        }
        let mut taken = Group { fen: String::new(), white_to_move: false, plies: Vec::new() };
        core::mem::swap(&mut groups[k], &mut taken);
        taken.plies.push(i);
        core::mem::swap(&mut groups[k], &mut taken);
        let ghost added = groups.deep_view();
        assert(added =~= known.update(
            k as int,
            GroupView { plies: known[k as int].plies.push(i), ..known[k as int] },
        ));
        add_stop(&mut groups, &plies[i].child);
        proof {
            let after = groups.deep_view();
            assert forall|g: int, j: int|
                0 <= g < after.len() && 0 <= j < after[g].plies.len() implies (
            #[trigger] after[g].plies[j]) < i + 1 by {
                if g < added.len() {
                    assert(after[g] == added[g]);
                    if g < known.len() && g != k {
                        assert(added[g] == known[g]);
                        if g < earlier.len() {
                            assert(known[g] == earlier[g]);
                            assert(earlier[g].plies[j] < i);
                        }
                    } else if g == k {
                        if j < known[g].plies.len() {
                            if g < earlier.len() {
                                assert(known[g] == earlier[g]);
                                assert(earlier[g].plies[j] < i);
                            }
                        }
                    }
                }
            }
        }
        i += 1;
    }
    assert(line.take(plies.len() as int) =~= line);
    groups
}

/// A stop that is added at the end is found there.
proof fn lemma_group_index_of_last(groups: Seq<GroupView>, stop: StopView)
    requires
        group_index(groups, stop.fen) >= groups.len(),
    ensures
        group_index(with_stop(groups, stop), stop.fen) == groups.len(),
    decreases groups.len(),
{
    lemma_group_index(groups, stop.fen);
    let added = groups.push(
        GroupView { fen: stop.fen, white_to_move: stop.white_to_move, plies: Seq::empty() },
    );
    if groups.len() > 0 {
        lemma_group_index(groups.drop_first(), stop.fen);
        lemma_group_index_of_last(groups.drop_first(), stop);
        assert(added.drop_first() =~= groups.drop_first().push(
            GroupView { fen: stop.fen, white_to_move: stop.white_to_move, plies: Seq::empty() },
        ));
    } else {
        assert(added.drop_first() =~= Seq::<GroupView>::empty());
    }
}

// ---------------------------------------------------------------------------
// Listing the moves of one side
// ---------------------------------------------------------------------------

/// The fingerprints of the moves of `plies` that the given side makes, in
/// order.
pub open spec fn side_fingerprints(plies: Seq<PlyView>, player_white: bool) -> Seq<Fingerprint>
    decreases plies.len(),
{
    if plies.len() == 0 {
        Seq::empty()
    } else {
        let earlier = side_fingerprints(plies.drop_last(), player_white);
        match plies.last().fingerprint {
            Some(fingerprint) => if plies.last().white_moved == player_white {
                earlier.push(fingerprint)
            } else {
                earlier
            },
            None => earlier,
        }
    }
}

/// The moves with the numbers `numbers` as the moves of a node, not yet
/// counted; nothing if one of them starts from no square.
pub open spec fn entries_of(numbers: Seq<usize>, plies: Seq<PlyView>) -> Option<Seq<EntryView>>
    decreases numbers.len(),
{
    if numbers.len() == 0 {
        Some(Seq::empty())
    } else {
        match (entries_of(numbers.drop_last(), plies), plies[numbers.last() as int].fingerprint) {
            (Some(entries), Some(fingerprint)) => Some(
                entries.push(
                    EntryView {
                        uci: plies[numbers.last() as int].uci,
                        san: plies[numbers.last() as int].san,
                        fingerprint,
                        frequency: 0,
                    },
                ),
            ),
            _ => None,
        }
    }
}

/// The positions of `groups` in which the given side is to move, each with
/// its moves counted by `tallies` and listed; a move that starts from no
/// square is refused.
pub open spec fn ranked_groups(
    groups: Seq<GroupView>,
    plies: Seq<PlyView>,
    tallies: Seq<Tally>,
    player_white: bool,
) -> Result<Seq<NodeView>, PgnFailure>
    decreases groups.len(),
{
    if groups.len() == 0 {
        Ok(Seq::empty())
    } else {
        match ranked_groups(groups.drop_last(), plies, tallies, player_white) {
            Err(e) => Err(e),
            Ok(nodes) => if groups.last().white_to_move != player_white {
                Ok(nodes)
            } else {
                match entries_of(groups.last().plies, plies) {
                    None => Err(PgnFailure::NoOrigin),
                    Some(entries) => Ok(
                        nodes.push(
                            ranked_node(NodeView { fen: groups.last().fen, entries }, tallies),
                        ),
                    ),
                }
            },
        }
    }
}

/// A refusal among the first groups is the refusal of all.
pub proof fn lemma_ranked_refusal_stands(
    groups: Seq<GroupView>,
    plies: Seq<PlyView>,
    tallies: Seq<Tally>,
    player_white: bool,
    k: int,
)
    requires
        0 <= k <= groups.len(),
        ranked_groups(groups.take(k), plies, tallies, player_white) is Err,
    ensures
        ranked_groups(groups, plies, tallies, player_white) == ranked_groups(
            groups.take(k),
            plies,
            tallies,
            player_white,
        ),
    decreases groups.len() - k,
{
    if k == groups.len() {
        assert(groups.take(k) =~= groups);
    } else {
        assert(groups.take(k + 1).drop_last() =~= groups.take(k));
        lemma_ranked_refusal_stands(groups, plies, tallies, player_white, k + 1);
    }
}

/// The moves of one side along the main line, counted and listed.
#[derive(Debug)]
pub struct Rankings {
    /// How often the side makes each move, in the order in which the moves
    /// first occur.
    pub frequencies: Vec<Tally>,
    /// The positions in which the side is to move, in the order in which
    /// they are first reached, each with its moves from the most to the
    /// least frequent.
    pub nodes: Vec<NodeAnalysis>,
    /// The number of those positions.
    pub total_nodes: usize,
}

/// Whether `rankings` lists the moves of the given side along the main line
/// `plies` from `root`.
pub open spec fn ranks(
    rankings: Rankings,
    root: StopView,
    plies: Seq<PlyView>,
    player_white: bool,
) -> bool {
    &&& counts(rankings.frequencies@, side_fingerprints(plies, player_white))
    &&& ranked_groups(grouped(root, plies), plies, rankings.frequencies@, player_white) == Ok::<
        Seq<NodeView>,
        PgnFailure,
    >(rankings.nodes.deep_view())
    &&& rankings.total_nodes == rankings.nodes.len()
}

fn side_moves(plies: &Vec<Ply>, player_white: bool) -> (out: Vec<Fingerprint>)
    ensures
        out@ == side_fingerprints(plies.deep_view(), player_white),
        out.len() <= plies.len(),
{
    let ghost line = plies.deep_view();
    let mut out: Vec<Fingerprint> = Vec::new();
    let mut i: usize = 0;
    assert(line.take(0) =~= Seq::<PlyView>::empty());
    while i < plies.len()
        invariant
            i <= plies.len(),
            line == plies.deep_view(),
            out@ == side_fingerprints(line.take(i as int), player_white),
            out.len() <= i,
        decreases plies.len() - i,
    {
        assert(line.take(i + 1).drop_last() =~= line.take(i as int));
        assert(line.take(i + 1).last() == plies[i as int].deep_view());
        match plies[i].fingerprint {
            Some(fingerprint) => {
                if plies[i].white_moved == player_white {
                    out.push(fingerprint);
                }
            },
            None => {},
        }
        i += 1;
    }
    assert(line.take(plies.len() as int) =~= line);
    out
}

fn group_entries(group: &Group, plies: &Vec<Ply>) -> (out: Option<Vec<MoveEntry>>)
    requires
        forall|j: int| 0 <= j < group.plies.len() ==> (#[trigger] group.plies[j]) < plies.len(),
    ensures
        match out {
            Some(entries) => entries_of(group.plies@, plies.deep_view()) == Some(
                entries.deep_view(),
            ),
            None => entries_of(group.plies@, plies.deep_view()) is None,
        },
{
    let ghost numbers = group.plies@;
    let ghost line = plies.deep_view();
    let mut entries: Vec<MoveEntry> = Vec::new();
    let mut j: usize = 0;
    assert(numbers.take(0) =~= Seq::<usize>::empty());
    assert(entries.deep_view() =~= Seq::<EntryView>::empty());
    while j < group.plies.len()
        invariant
            j <= group.plies.len(),
            numbers == group.plies@,
            line == plies.deep_view(),
            forall|k: int| 0 <= k < group.plies.len() ==> (#[trigger] group.plies[k]) < plies.len(),
            entries_of(numbers.take(j as int), line) == Some(entries.deep_view()),
        decreases group.plies.len() - j,
    {
        assert(numbers.take(j + 1).drop_last() =~= numbers.take(j as int));
        assert(numbers.take(j + 1).last() == group.plies[j as int]);
        let ply = &plies[group.plies[j]];
        assert(line[group.plies[j as int] as int] == ply.deep_view());
        match ply.fingerprint {
            Some(fingerprint) => {
                let ghost before = entries.deep_view();
                entries.push(
                    MoveEntry {
                        uci: ply.uci.clone(),
                        san: ply.san.clone(),
                        fingerprint,
                        frequency: 0,
                    },
                );
                assert(entries.deep_view() =~= before.push(
                    EntryView { uci: ply.uci@, san: ply.san@, fingerprint, frequency: 0 },
                ));
            },
            None => {
                proof {
                    lemma_entries_missing(numbers, line, j + 1);
                }
                return None;
            },
        }
        j += 1;
    }
    assert(numbers.take(group.plies.len() as int) =~= numbers);
    Some(entries)
}

proof fn lemma_entries_missing(numbers: Seq<usize>, plies: Seq<PlyView>, k: int)
    requires
        0 <= k <= numbers.len(),
        entries_of(numbers.take(k), plies) is None,
    ensures
        entries_of(numbers, plies) is None,
    decreases numbers.len() - k,
{
    if k == numbers.len() {
        assert(numbers.take(k) =~= numbers);
    } else {
        assert(numbers.take(k + 1).drop_last() =~= numbers.take(k));
        lemma_entries_missing(numbers, plies, k + 1);
    }
}

/// The view of rankings or an error, held against what is wanted.
pub open spec fn ranks_or_fails(
    out: Result<Rankings, PgnError>,
    root: StopView,
    plies: Seq<PlyView>,
    player_white: bool,
) -> bool {
    match out {
        Ok(rankings) => ranks(rankings, root, plies, player_white),
        Err(e) => exists|tallies: Seq<Tally>|
            counts(tallies, side_fingerprints(plies, player_white)) && ranked_groups(
                grouped(root, plies),
                plies,
                tallies,
                player_white,
            ) == Err::<Seq<NodeView>, PgnFailure>(e@),
    }
}

/// Counts how often the given side makes each move along the main line
/// `plies` from `root`, and lists the moves of each position in which that
/// side is to move. The line must not be longer than a count can say.
pub fn rank_mainline(root: &Stop, plies: &Vec<Ply>, player_white: bool) -> (out: Result<
    Rankings,
    PgnError,
>)
    requires
        plies.len() <= u32::MAX,
    ensures
        ranks_or_fails(out, root.deep_view(), plies.deep_view(), player_white),
{
    let groups = group_plies(root, plies);
    let fingerprints = side_moves(plies, player_white);
    let frequencies = count_frequencies(&fingerprints);
    let ghost all = groups.deep_view();
    let ghost line = plies.deep_view();
    let mut nodes: Vec<NodeAnalysis> = Vec::new();
    let mut g: usize = 0;
    assert(all.take(0) =~= Seq::<GroupView>::empty());
    assert(nodes.deep_view() =~= Seq::<NodeView>::empty());
    while g < groups.len()
        invariant
            g <= groups.len(),
            all == groups.deep_view(),
            line == plies.deep_view(),
            groups_within(all, plies.len() as int),
            all == grouped(root.deep_view(), line),
            counts(frequencies@, side_fingerprints(line, player_white)),
            ranked_groups(all.take(g as int), line, frequencies@, player_white) == Ok::<
                Seq<NodeView>,
                PgnFailure,
            >(nodes.deep_view()),
        decreases groups.len() - g,
    {
        assert(all.take(g + 1).drop_last() =~= all.take(g as int));
        assert(all.take(g + 1).last() == groups[g as int].deep_view());
        if groups[g].white_to_move == player_white {
            proof {
                assert forall|j: int| 0 <= j < groups[g as int].plies.len() implies (
                #[trigger] groups[g as int].plies[j]) < plies.len() by {
                    assert(all[g as int].plies[j] < plies.len());
                }
            }
            match group_entries(&groups[g], plies) {
                None => {
                    proof {
                        lemma_ranked_refusal_stands(all, line, frequencies@, player_white, g + 1);
                        let tallies = frequencies@;
                        assert(counts(tallies, side_fingerprints(line, player_white))
                            && ranked_groups(
                            grouped(root.deep_view(), line),
                            line,
                            tallies,
                            player_white,
                        ) == Err::<Seq<NodeView>, PgnFailure>(PgnFailure::NoOrigin));
                    }
                    return Err(PgnError::NoOrigin);
                },
                Some(entries) => {
                    let node = NodeAnalysis { fen: groups[g].fen.clone(), entries };
                    let ranked = rank_node(&node, &frequencies);
                    let ghost before = nodes.deep_view();
                    nodes.push(ranked);
                    assert(nodes.deep_view() =~= before.push(ranked.deep_view()));
                },
            }
        }
        g += 1;
    }
    assert(all.take(groups.len() as int) =~= all);
    let total_nodes = nodes.len();
    Ok(Rankings { frequencies, nodes, total_nodes })
}

/// What the main line `sans` gives for the given side: the root, the moves
/// played, and from them the rankings.
pub open spec fn builds(
    out: Result<Rankings, PgnError>,
    sans: Seq<Seq<char>>,
    player_white: bool,
) -> bool {
    match stop_reading(start_fen()) {
        Err(failure) => out matches Err(e) && e@ == failure,
        Ok(root) => match plies_from(start_fen(), sans, 0, player_white) {
            Err(failure) => out matches Err(e) && e@ == failure,
            Ok(plies) => ranks_or_fails(out, root, plies, player_white),
        },
    }
}

/// Plays the main line from the starting position, counts how often the
/// given side makes each move, and lists the moves of each position in
/// which that side is to move. The line must not be longer than a count
/// can say.
pub fn build_rankings(mainline: &Vec<String>, player_white: bool) -> (out: Result<
    Rankings,
    PgnError,
>)
    requires
        mainline.len() <= u32::MAX,
    ensures
        builds(out, mainline.deep_view(), player_white),
{
    let root = match stop_at("rnbqkbnr/pppppppp/8/8/8/8/PPPPPPPP/RNBQKBNR w KQkq - 0 1") {
        Ok(root) => root,
        Err(e) => {
            return Err(e);
        },
    };
    let plies = match play_mainline(mainline, player_white) {
        Ok(plies) => plies,
        Err(e) => {
            return Err(e);
        },
    };
    proof {
        lemma_plies_count(start_fen(), mainline.deep_view(), 0, player_white);
    }
    rank_mainline(&root, &plies, player_white)
}

/// A line that can be played gives as many moves as it has.
proof fn lemma_plies_count(fen: Seq<char>, sans: Seq<Seq<char>>, i: int, player_white: bool)
    requires
        0 <= i <= sans.len(),
        plies_from(fen, sans, i, player_white) is Ok,
    ensures
        plies_from(fen, sans, i, player_white)->Ok_0.len() == sans.len() - i,
    decreases sans.len() - i,
{
    if i < sans.len() {
        let next = ply_reading(fen, sans[i], player_white)->Ok_0.1;
        lemma_plies_count(next, sans, i + 1, player_white);
    }
}


} // verus!
