//! How often each move is played across the nodes of a repertoire, and the
//! moves of each node listed by that.
//!
//! Two moves count as the same when the same kind of piece goes from the
//! same square to the same square, in whatever position.

use crate::chess::move_facts;
use crate::chess::move_reading;
use crate::chess::position_facts;
use crate::chess::position_reading;
use crate::chess::role_numbered;
use crate::chess::MoveFailure;
use crate::chess::MoveFacts;
use crate::chess::MoveFault;
use crate::chess::MoveReading;
use crate::chess::Role;
use crate::chess::Square;
use crate::fen::fen_error;
use crate::fen::fen_failure;
use crate::fen::ChessError;
use crate::fen::ChessFailure;
use crate::fen::Task;
use crate::order::arrange;
use crate::order::indices;
use crate::order::keys_of;
use crate::order::ranking;
use crate::order::ranking_of;
use crate::order::RankKey;
use crate::order::SortKey;
use vstd::prelude::*;
use vstd::string::StringExecFns;

verus! {

// ---------------------------------------------------------------------------
// Data
// ---------------------------------------------------------------------------

/// A node as it is given: a position and the moves played from it, in UCI
/// notation.
#[derive(Debug)]
pub struct NodeInput {
    pub fen: String,
    pub moves: Vec<String>,
}

/// The mathematical content of a [`NodeInput`].
pub struct NodeText {
    pub fen: Seq<char>,
    pub moves: Seq<Seq<char>>,
}

impl DeepView for NodeInput {
    type V = NodeText;

    open spec fn deep_view(&self) -> NodeText {
        NodeText { fen: self.fen@, moves: self.moves.deep_view() }
    }
}

/// What makes two moves the same move: the kind of piece, and the squares
/// it goes from and to.
#[derive(Debug, Clone, Copy, PartialEq, Eq, Hash, Structural)]
pub struct Fingerprint {
    pub role: Role,
    pub from: Square,
    pub to: Square,
}

/// A move of a node.
#[derive(Debug)]
pub struct MoveEntry {
    pub uci: String,
    pub san: String,
    pub fingerprint: Fingerprint,
    /// How often the move is played across all nodes.
    pub frequency: u32,
}

/// The mathematical content of a [`MoveEntry`].
pub struct EntryView {
    pub uci: Seq<char>,
    pub san: Seq<char>,
    pub fingerprint: Fingerprint,
    pub frequency: u32,
}

impl DeepView for MoveEntry {
    type V = EntryView;

    open spec fn deep_view(&self) -> EntryView {
        EntryView {
            uci: self.uci@,
            san: self.san@,
            fingerprint: self.fingerprint,
            frequency: self.frequency,
        }
    }
}

/// A node with its moves.
#[derive(Debug)]
pub struct NodeAnalysis {
    pub fen: String,
    pub entries: Vec<MoveEntry>,
}

/// The mathematical content of a [`NodeAnalysis`].
pub struct NodeView {
    pub fen: Seq<char>,
    pub entries: Seq<EntryView>,
}

impl DeepView for NodeAnalysis {
    type V = NodeView;

    open spec fn deep_view(&self) -> NodeView {
        NodeView { fen: self.fen@, entries: self.entries.deep_view() }
    }
}

/// How often one move is played.
#[derive(Debug, Clone, Copy, PartialEq, Eq, Structural)]
pub struct Tally {
    pub fingerprint: Fingerprint,
    pub count: u32,
}

/// The outcome of the analysis.
#[derive(Debug)]
pub struct MoveAnalysis {
    /// Each move that is played, once, with how often it is played, in the
    /// order in which the moves first occur.
    pub frequencies: Vec<Tally>,
    /// The nodes as given, each with its moves listed from the most to the
    /// least frequent.
    pub rankings: Vec<NodeAnalysis>,
}

// ---------------------------------------------------------------------------
// Reading the moves
// ---------------------------------------------------------------------------

/// What makes the move `m` the same as others; nothing for a move that
/// starts from no square.
pub open spec fn fingerprint_of(m: MoveReading) -> Option<Fingerprint> {
    match (role_numbered(m.role), m.from) {
        (Some(role), Some(from)) => if from < 64 && m.to < 64 {
            Some(Fingerprint { role, from: Square::numbered(from), to: Square::numbered(m.to) })
        } else {
            None
        },
        _ => None,
    }
}

/// What makes a move the same as others, from what was read off it.
pub fn fingerprint(m: &MoveFacts) -> (out: Option<Fingerprint>)
    ensures
        out == fingerprint_of(m@),
{
    match (Role::from_index(m.role), m.from) {
        (Some(role), Some(from)) => match (Square::new(from), Square::new(m.to)) {
            (Some(from), Some(to)) => Some(Fingerprint { role, from, to }),
            _ => None,
        },
        _ => None,
    }
}

/// What the move `uci` in the position `fen` is taken in as during `task`,
/// or the failure that it is refused with.
pub open spec fn entry_reading(fen: Seq<char>, uci: Seq<char>, task: Task) -> Result<
    EntryView,
    ChessFailure,
> {
    match move_reading(fen, uci) {
        Ok(m) => match fingerprint_of(m) {
            Some(fingerprint) => Ok(EntryView { uci, san: m.san, fingerprint, frequency: 0 }),
            None => Err(ChessFailure::NoOrigin),
        },
        Err(MoveFailure::Syntax(detail)) => Err(ChessFailure::InvalidUci { uci, fen, task, detail }),
        Err(MoveFailure::Illegal) => Err(ChessFailure::IllegalMove { uci, fen }),
        Err(MoveFailure::Position) => match position_reading(fen) {
            Err(fault) => Err(fen_failure(fault, fen, task)),
            Ok(_) => Err(ChessFailure::NoOrigin),
        },
    }
}

/// The view of an entry or an error.
pub open spec fn entry_or_failure(out: Result<MoveEntry, ChessError>) -> Result<
    EntryView,
    ChessFailure,
> {
    match out {
        Ok(entry) => Ok(entry.deep_view()),
        Err(e) => Err(e@),
    }
}

/// Takes in the move `uci` in the position `fen`.
pub fn read_entry(fen: &str, uci: &str, task: Task) -> (out: Result<MoveEntry, ChessError>)
    ensures
        entry_or_failure(out) == entry_reading(fen@, uci@, task),
{
    match move_facts(fen, uci) {
        Ok(m) => match fingerprint(&m) {
            Some(fingerprint) => Ok(
                MoveEntry { uci: String::from_str(uci), san: m.san, fingerprint, frequency: 0 },
            ),
            None => Err(ChessError::NoOrigin),
        },
        Err(MoveFault::Syntax(detail)) => Err(
            ChessError::InvalidUci {
                uci: String::from_str(uci),
                fen: String::from_str(fen),
                task,
                detail,
            },
        ),
        Err(MoveFault::Illegal) => Err(
            ChessError::IllegalMove { uci: String::from_str(uci), fen: String::from_str(fen) },
        ),
        Err(MoveFault::Position) => match position_facts(fen) {
            Err(fault) => Err(fen_error(fault, fen, task)),
            Ok(_) => Err(ChessError::NoOrigin),
        },
    }
}

/// What the moves `moves` in the position `fen` are taken in as, in order,
/// or the failure of the first that is refused.
pub open spec fn entries_reading(fen: Seq<char>, moves: Seq<Seq<char>>, task: Task) -> Result<
    Seq<EntryView>,
    ChessFailure,
>
    decreases moves.len(),
{
    if moves.len() == 0 {
        Ok(Seq::empty())
    } else {
        match entries_reading(fen, moves.drop_last(), task) {
            Err(e) => Err(e),
            Ok(entries) => match entry_reading(fen, moves.last(), task) {
                Ok(entry) => Ok(entries.push(entry)),
                Err(e) => Err(e),
            },
        }
    }
}

/// A refusal among the first moves is the refusal of the whole list.
pub proof fn lemma_entries_refusal_stands(
    fen: Seq<char>,
    moves: Seq<Seq<char>>,
    task: Task,
    k: int,
)
    requires
        0 <= k <= moves.len(),
        entries_reading(fen, moves.take(k), task) is Err,
    ensures
        entries_reading(fen, moves, task) == entries_reading(fen, moves.take(k), task),
    decreases moves.len() - k,
{
    if k == moves.len() {
        assert(moves.take(k) =~= moves);
    } else {
        assert(moves.take(k + 1).drop_last() =~= moves.take(k));
        lemma_entries_refusal_stands(fen, moves, task, k + 1);
    }
}

/// What the node `node` is taken in as during `task`: the position is read
/// first, then the moves in order.
pub open spec fn node_reading(node: NodeText, task: Task) -> Result<NodeView, ChessFailure> {
    match position_reading(node.fen) {
        Err(fault) => Err(fen_failure(fault, node.fen, task)),
        Ok(_) => match entries_reading(node.fen, node.moves, task) {
            Ok(entries) => Ok(NodeView { fen: node.fen, entries }),
            Err(e) => Err(e),
        },
    }
}

/// The view of a node or an error.
pub open spec fn node_or_failure(out: Result<NodeAnalysis, ChessError>) -> Result<
    NodeView,
    ChessFailure,
> {
    match out {
        Ok(node) => Ok(node.deep_view()),
        Err(e) => Err(e@),
    }
}

/// Takes in one node.
pub fn read_node(node: &NodeInput, task: Task) -> (out: Result<NodeAnalysis, ChessError>)
    ensures
        node_or_failure(out) == node_reading(node.deep_view(), task),
{
    match position_facts(node.fen.as_str()) {
        Err(fault) => {
            return Err(fen_error(fault, node.fen.as_str(), task));
        },
        Ok(_) => {},
    }
    let ghost moves = node.moves.deep_view();
    let mut entries: Vec<MoveEntry> = Vec::new();
    let mut i: usize = 0;
    assert(moves.take(0) =~= Seq::<Seq<char>>::empty());
    assert(entries.deep_view() =~= Seq::<EntryView>::empty());
    while i < node.moves.len()
        invariant
            i <= node.moves.len(),
            moves == node.moves.deep_view(),
            position_reading(node.fen@) is Ok,
            entries_reading(node.fen@, moves.take(i as int), task) == Ok::<
                Seq<EntryView>,
                ChessFailure,
            >(entries.deep_view()),
        decreases node.moves.len() - i,
    {
        assert(moves.take(i + 1).drop_last() =~= moves.take(i as int));
        assert(moves.take(i + 1).last() == node.moves[i as int]@);
        match read_entry(node.fen.as_str(), node.moves[i].as_str(), task) {
            Ok(entry) => {
                let ghost before = entries.deep_view();
                entries.push(entry);
                assert(entries.deep_view() =~= before.push(entry.deep_view()));
            },
            Err(e) => {
                proof {
                    lemma_entries_refusal_stands(node.fen@, moves, task, i + 1);
                }
                return Err(e);
            },
        }
        i += 1;
    }
    assert(moves.take(node.moves.len() as int) =~= moves);
    Ok(NodeAnalysis { fen: node.fen.clone(), entries })
}

/// What the nodes `nodes` are taken in as, in order, or the failure of the
/// first that is refused.
pub open spec fn nodes_reading(nodes: Seq<NodeText>, task: Task) -> Result<
    Seq<NodeView>,
    ChessFailure,
>
    decreases nodes.len(),
{
    if nodes.len() == 0 {
        Ok(Seq::empty())
    } else {
        match nodes_reading(nodes.drop_last(), task) {
            Err(e) => Err(e),
            Ok(read) => match node_reading(nodes.last(), task) {
                Ok(node) => Ok(read.push(node)),
                Err(e) => Err(e),
            },
        }
    }
}

/// A refusal among the first nodes is the refusal of the whole list.
pub proof fn lemma_nodes_refusal_stands(nodes: Seq<NodeText>, task: Task, k: int)
    requires
        0 <= k <= nodes.len(),
        nodes_reading(nodes.take(k), task) is Err,
    ensures
        nodes_reading(nodes, task) == nodes_reading(nodes.take(k), task),
    decreases nodes.len() - k,
{
    if k == nodes.len() {
        assert(nodes.take(k) =~= nodes);
    } else {
        assert(nodes.take(k + 1).drop_last() =~= nodes.take(k));
        lemma_nodes_refusal_stands(nodes, task, k + 1);
    }
}

/// The view of nodes or an error.
pub open spec fn nodes_or_failure(out: Result<Vec<NodeAnalysis>, ChessError>) -> Result<
    Seq<NodeView>,
    ChessFailure,
> {
    match out {
        Ok(nodes) => Ok(nodes.deep_view()),
        Err(e) => Err(e@),
    }
}

/// Takes in the nodes, in order.
pub fn collect_moves(nodes: &Vec<NodeInput>) -> (out: Result<Vec<NodeAnalysis>, ChessError>)
    ensures
        nodes_or_failure(out) == nodes_reading(nodes.deep_view(), Task::Analysis),
{
    let ghost given = nodes.deep_view();
    let mut read: Vec<NodeAnalysis> = Vec::new();
    let mut i: usize = 0;
    assert(given.take(0) =~= Seq::<NodeText>::empty());
    assert(read.deep_view() =~= Seq::<NodeView>::empty());
    while i < nodes.len()
        invariant
            i <= nodes.len(),
            given == nodes.deep_view(),
            nodes_reading(given.take(i as int), Task::Analysis) == Ok::<
                Seq<NodeView>,
                ChessFailure,
            >(read.deep_view()),
        decreases nodes.len() - i,
    {
        assert(given.take(i + 1).drop_last() =~= given.take(i as int));
        assert(given.take(i + 1).last() == nodes[i as int].deep_view());
        match read_node(&nodes[i], Task::Analysis) {
            Ok(node) => {
                let ghost before = read.deep_view();
                read.push(node);
                assert(read.deep_view() =~= before.push(node.deep_view()));
            },
            Err(e) => {
                proof {
                    lemma_nodes_refusal_stands(given, Task::Analysis, i + 1);
                }
                return Err(e);
            },
        }
        i += 1;
    }
    assert(given.take(nodes.len() as int) =~= given);
    Ok(read)
}

// ---------------------------------------------------------------------------
// Counting
// ---------------------------------------------------------------------------

/// The fingerprints of `entries`, in order.
pub open spec fn fingerprints_of(entries: Seq<EntryView>) -> Seq<Fingerprint> {
    Seq::new(entries.len(), |i: int| entries[i].fingerprint)
}

/// The fingerprints of all moves of `nodes`, node by node.
pub open spec fn all_fingerprints(nodes: Seq<NodeView>) -> Seq<Fingerprint>
    decreases nodes.len(),
{
    if nodes.len() == 0 {
        Seq::empty()
    } else {
        all_fingerprints(nodes.drop_last()) + fingerprints_of(nodes.last().entries)
    }
}

/// How often `fingerprint` occurs in `all`.
pub open spec fn occurrences(all: Seq<Fingerprint>, fingerprint: Fingerprint) -> nat
    decreases all.len(),
{
    if all.len() == 0 {
        0
    } else if all.last() == fingerprint {
        occurrences(all.drop_last(), fingerprint) + 1
    } else {
        occurrences(all.drop_last(), fingerprint)
    }
}

/// The fingerprints of `all` without repeats, in the order in which they
/// first occur.
pub open spec fn distinct(all: Seq<Fingerprint>) -> Seq<Fingerprint>
    decreases all.len(),
{
    if all.len() == 0 {
        Seq::empty()
    } else if distinct(all.drop_last()).contains(all.last()) {
        distinct(all.drop_last())
    } else {
        distinct(all.drop_last()).push(all.last())
    }
}

/// Whether `tallies` counts `all`: it names each fingerprint of `all` once,
/// in the order of first occurrence, with the number of its occurrences.
pub open spec fn counts(tallies: Seq<Tally>, all: Seq<Fingerprint>) -> bool {
    &&& tallies.len() == distinct(all).len()
    &&& forall|j: int|
        0 <= j < tallies.len() ==> (#[trigger] tallies[j]).fingerprint == distinct(all)[j]
            && tallies[j].count == occurrences(all, distinct(all)[j])
}

/// Nothing occurs more often than there are items; what occurs is named
/// among the distinct ones, once; what does not occur is not.
pub proof fn lemma_distinct(all: Seq<Fingerprint>, fingerprint: Fingerprint)
    ensures
        occurrences(all, fingerprint) <= all.len(),
        distinct(all).contains(fingerprint) <==> occurrences(all, fingerprint) > 0,
        distinct(all).no_duplicates(),
    decreases all.len(),
{
    if all.len() > 0 {
        let shorter = all.drop_last();
        lemma_distinct(shorter, fingerprint);
        lemma_distinct(shorter, all.last());
        let d = distinct(shorter);
        if !d.contains(all.last()) {
            let e = d.push(all.last());
            assert(e[d.len() as int] == all.last());
            if d.contains(fingerprint) {
                let k = choose|k: int| 0 <= k < d.len() && d[k] == fingerprint;
                assert(e[k] == fingerprint);
            }
            if e.contains(fingerprint) && fingerprint != all.last() {
                let k = choose|k: int| 0 <= k < e.len() && e[k] == fingerprint;
                assert(d[k] == fingerprint);
            }
            assert forall|a: int, b: int| 0 <= a < e.len() && 0 <= b < e.len() && a
                != b implies e[a] != e[b] by {
                if a < d.len() && b < d.len() {
                    assert(d[a] != d[b]);
                } else if a < d.len() {
                    assert(d.contains(d[a]));
                } else {
                    assert(d.contains(d[b]));
                }
            }
        }
    }
}

/// The count that `tallies` holds for `fingerprint`; zero if it holds none.
pub open spec fn count_in(tallies: Seq<Tally>, fingerprint: Fingerprint) -> u32
    decreases tallies.len(),
{
    if tallies.len() == 0 {
        0
    } else if tallies[0].fingerprint == fingerprint {
        tallies[0].count
    } else {
        count_in(tallies.drop_first(), fingerprint)
    }
}

/// In tallies that count `all`, every fingerprint is held with the number
/// of its occurrences.
pub proof fn lemma_count_in(tallies: Seq<Tally>, all: Seq<Fingerprint>, fingerprint: Fingerprint)
    requires
        counts(tallies, all),
    ensures
        count_in(tallies, fingerprint) == occurrences(all, fingerprint),
{
    lemma_distinct(all, fingerprint);
    lemma_count_in_from(tallies, all, fingerprint, 0);
    assert(tallies.skip(0) =~= tallies);
}

proof fn lemma_count_in_from(
    tallies: Seq<Tally>,
    all: Seq<Fingerprint>,
    fingerprint: Fingerprint,
    from: int,
)
    requires
        counts(tallies, all),
        0 <= from <= tallies.len(),
        forall|j: int| 0 <= j < from ==> distinct(all)[j] != fingerprint,
        distinct(all).contains(fingerprint) <==> occurrences(all, fingerprint) > 0,
    ensures
        count_in(tallies.skip(from), fingerprint) == occurrences(all, fingerprint),
    decreases tallies.len() - from,
{
    let rest = tallies.skip(from);
    if from == tallies.len() {
        if distinct(all).contains(fingerprint) {
            let k = choose|k: int| 0 <= k < distinct(all).len() && distinct(all)[k] == fingerprint;
            assert(false);
        }
    } else {
        assert(rest[0] == tallies[from]);
        if tallies[from].fingerprint != fingerprint {
            assert(rest.drop_first() =~= tallies.skip(from + 1));
            lemma_count_in_from(tallies, all, fingerprint, from + 1);
        }
    }
}

/// The fingerprints of all moves of `nodes`, node by node.
pub fn fingerprints(nodes: &Vec<NodeAnalysis>) -> (out: Vec<Fingerprint>)
    ensures
        out@ == all_fingerprints(nodes.deep_view()),
{
    let ghost given = nodes.deep_view();
    let mut out: Vec<Fingerprint> = Vec::new();
    let mut i: usize = 0;
    assert(given.take(0) =~= Seq::<NodeView>::empty());
    while i < nodes.len()
        invariant
            i <= nodes.len(),
            given == nodes.deep_view(),
            out@ == all_fingerprints(given.take(i as int)),
        decreases nodes.len() - i,
    {
        assert(given.take(i + 1).drop_last() =~= given.take(i as int));
        assert(given.take(i + 1).last() == nodes[i as int].deep_view());
        let ghost before = out@;
        let ghost wanted = fingerprints_of(nodes[i as int].deep_view().entries);
        let entries = &nodes[i].entries;
        let mut j: usize = 0;
        while j < entries.len()
            invariant
                j <= entries.len(),
                wanted == fingerprints_of(entries.deep_view()),
                out@ == before + wanted.take(j as int),
            decreases entries.len() - j,
        {
            assert(wanted[j as int] == entries[j as int].fingerprint);
            out.push(entries[j].fingerprint);
            assert(out@ =~= before + wanted.take(j + 1));
            j += 1;
        }
        assert(wanted.take(entries.len() as int) =~= wanted);
        i += 1;
    }
    assert(given.take(nodes.len() as int) =~= given);
    out
}

fn find_tally(tallies: &Vec<Tally>, fingerprint: Fingerprint) -> (out: Option<usize>)
    ensures
        match out {
            Some(k) => k < tallies.len() && tallies[k as int].fingerprint == fingerprint
                && forall|j: int| 0 <= j < k ==> (#[trigger] tallies[j]).fingerprint != fingerprint,
            None => forall|j: int|
                0 <= j < tallies.len() ==> (#[trigger] tallies[j]).fingerprint != fingerprint,
        },
{
    let mut k: usize = 0;
    while k < tallies.len()
        invariant
            k <= tallies.len(),
            forall|j: int| 0 <= j < k ==> (#[trigger] tallies[j]).fingerprint != fingerprint,
        decreases tallies.len() - k,
    {
        if tallies[k].fingerprint == fingerprint {
            return Some(k);
        }
        k += 1;
    }
    None
}

/// Counts how often each fingerprint occurs in `all`, which must not be
/// longer than a count can say.
pub fn count_frequencies(all: &Vec<Fingerprint>) -> (out: Vec<Tally>)
    requires
        all.len() <= u32::MAX,
    ensures
        counts(out@, all@),
{
    let mut tallies: Vec<Tally> = Vec::new();
    let mut i: usize = 0;
    assert(all@.take(0) =~= Seq::<Fingerprint>::empty());
    while i < all.len()
        invariant
            i <= all.len(),
            all.len() <= u32::MAX,
            counts(tallies@, all@.take(i as int)),
        decreases all.len() - i,
    {
        let ghost shorter = all@.take(i as int);
        let ghost longer = all@.take(i + 1);
        let ghost before = tallies@;
        let fingerprint = all[i];
        assert(longer.drop_last() =~= shorter);
        assert(longer.last() == fingerprint);
        proof {
            lemma_distinct(shorter, fingerprint);
        }
        match find_tally(&tallies, fingerprint) {
            Some(k) => {
                assert(distinct(shorter)[k as int] == fingerprint);
                let count = tallies[k].count;
                tallies.set(k, Tally { fingerprint, count: count + 1 });
            },
            None => {
                proof {
                    if distinct(shorter).contains(fingerprint) {
                        let k = choose|k: int|
                            0 <= k < distinct(shorter).len() && distinct(shorter)[k] == fingerprint;
                        assert(before[k].fingerprint == fingerprint);
                    }
                }
                tallies.push(Tally { fingerprint, count: 1 });
            },
        }
        proof {
            assert forall|j: int| 0 <= j < tallies.len() implies (#[trigger] tallies[j]).fingerprint
                == distinct(longer)[j] && tallies[j].count == occurrences(
                longer,
                distinct(longer)[j],
            ) by {
                if j < before.len() {
                    assert(before[j].fingerprint == distinct(shorter)[j]);
                }
            }
        }
        i += 1;
    }
    assert(all@.take(all.len() as int) =~= all@);
    tallies
}

/// The count that `tallies` holds for `fingerprint`; zero if it holds none.
pub fn frequency_of(tallies: &Vec<Tally>, fingerprint: Fingerprint) -> (out: u32)
    ensures
        out == count_in(tallies@, fingerprint),
{
    let mut k: usize = 0;
    assert(tallies@.skip(0) =~= tallies@);
    while k < tallies.len()
        invariant
            k <= tallies.len(),
            count_in(tallies@, fingerprint) == count_in(tallies@.skip(k as int), fingerprint),
        decreases tallies.len() - k,
    {
        assert(tallies@.skip(k as int)[0] == tallies[k as int]);
        if tallies[k].fingerprint == fingerprint {
            return tallies[k].count;
        }
        assert(tallies@.skip(k as int).drop_first() =~= tallies@.skip(k + 1));
        k += 1;
    }
    0
}

// ---------------------------------------------------------------------------
// Listing
// ---------------------------------------------------------------------------

/// `entries`, each with the count that `tallies` holds for it.
pub open spec fn counted(entries: Seq<EntryView>, tallies: Seq<Tally>) -> Seq<EntryView> {
    Seq::new(
        entries.len(),
        |i: int| EntryView { frequency: count_in(tallies, entries[i].fingerprint), ..entries[i] },
    )
}

/// What `entries` are ordered by.
pub open spec fn entry_keys(entries: Seq<EntryView>) -> Seq<RankKey> {
    Seq::new(
        entries.len(),
        |i: int| RankKey { frequency: entries[i].frequency, san: entries[i].san },
    )
}

/// `entries` from the most to the least frequent; among equally frequent
/// moves by notation, and among moves equal in both as they came.
pub open spec fn listed(entries: Seq<EntryView>) -> Seq<EntryView> {
    let order = ranking(entry_keys(entries));
    Seq::new(order.len(), |i: int| entries[order[i]])
}

/// The node `node` with its moves counted by `tallies` and listed.
pub open spec fn ranked_node(node: NodeView, tallies: Seq<Tally>) -> NodeView {
    NodeView { fen: node.fen, entries: listed(counted(node.entries, tallies)) }
}

/// Gives each move of `node` the count that `tallies` holds for it, and
/// lists the moves by it.
pub fn rank_node(node: &NodeAnalysis, tallies: &Vec<Tally>) -> (out: NodeAnalysis)
    ensures
        out.deep_view() == ranked_node(node.deep_view(), tallies@),
{
    let ghost given = node.entries.deep_view();
    let ghost wanted = counted(given, tallies@);
    let mut entries: Vec<MoveEntry> = Vec::new();
    let mut keys: Vec<SortKey> = Vec::new();
    let mut i: usize = 0;
    while i < node.entries.len()
        invariant
            i <= node.entries.len(),
            given == node.entries.deep_view(),
            wanted == counted(given, tallies@),
            entries.len() == i,
            keys.len() == i,
            entries.deep_view() == wanted.take(i as int),
            keys_of(keys@) == entry_keys(wanted).take(i as int),
        decreases node.entries.len() - i,
    {
        let entry = &node.entries[i];
        assert(given[i as int] == entry.deep_view());
        let frequency = frequency_of(tallies, entry.fingerprint);
        let ghost entries_before = entries.deep_view();
        let ghost keys_before = keys_of(keys@);
        entries.push(
            MoveEntry {
                uci: entry.uci.clone(),
                san: entry.san.clone(),
                fingerprint: entry.fingerprint,
                frequency,
            },
        );
        keys.push(SortKey { frequency, san: entry.san.clone() });
        assert(entries.deep_view() =~= wanted.take(i + 1));
        assert(keys_of(keys@) =~= entry_keys(wanted).take(i + 1));
        i += 1;
    }
    assert(wanted.take(node.entries.len() as int) =~= wanted);
    assert(entry_keys(wanted).take(node.entries.len() as int) =~= entry_keys(wanted));
    let order = ranking_of(&keys);
    let ghost counted_entries = entries@;
    let entries = arrange(entries, &order);
    proof {
        assert(entries.deep_view() =~= listed(wanted)) by {
            assert(indices(order@) == ranking(entry_keys(wanted)));
            assert forall|k: int| 0 <= k < order.len() implies entries.deep_view()[k] == listed(
                wanted,
            )[k] by {
                assert(indices(order@)[k] == order[k] as int);
                assert(entries[k] == counted_entries[order[k] as int]);
                assert(counted_entries[order[k] as int].deep_view() == wanted[order[k] as int]);
            }
        }
    }
    NodeAnalysis { fen: node.fen.clone(), entries }
}

/// The nodes `nodes`, each with its moves counted by `tallies` and listed.
pub open spec fn ranked_nodes(nodes: Seq<NodeView>, tallies: Seq<Tally>) -> Seq<NodeView> {
    Seq::new(nodes.len(), |i: int| ranked_node(nodes[i], tallies))
}

/// Counts and lists the moves of every node.
pub fn rank_nodes(nodes: &Vec<NodeAnalysis>, tallies: &Vec<Tally>) -> (out: Vec<NodeAnalysis>)
    ensures
        out.deep_view() == ranked_nodes(nodes.deep_view(), tallies@),
{
    let mut out: Vec<NodeAnalysis> = Vec::new();
    let mut i: usize = 0;
    while i < nodes.len()
        invariant
            i <= nodes.len(),
            out.len() == i,
            out.deep_view() == ranked_nodes(nodes.deep_view(), tallies@).take(i as int),
        decreases nodes.len() - i,
    {
        let ranked = rank_node(&nodes[i], tallies);
        out.push(ranked);
        assert(out.deep_view() =~= ranked_nodes(nodes.deep_view(), tallies@).take(i + 1));
        i += 1;
    }
    assert(ranked_nodes(nodes.deep_view(), tallies@).take(nodes.len() as int) =~= ranked_nodes(
        nodes.deep_view(),
        tallies@,
    ));
    out
}

// ---------------------------------------------------------------------------
// The analysis
// ---------------------------------------------------------------------------

/// The number of moves of `nodes`.
pub open spec fn total_moves(nodes: Seq<NodeText>) -> nat
    decreases nodes.len(),
{
    if nodes.len() == 0 {
        0
    } else {
        total_moves(nodes.drop_last()) + nodes.last().moves.len()
    }
}

/// Whether `analysis` is the analysis of the moves `read`: every move that
/// is played is counted, and the moves of every node are listed by the
/// counts.
pub open spec fn analyses(analysis: MoveAnalysis, read: Seq<NodeView>) -> bool {
    &&& counts(analysis.frequencies@, all_fingerprints(read))
    &&& analysis.rankings.deep_view() == ranked_nodes(read, analysis.frequencies@)
}

/// Counts and lists moves that were read.
pub fn analyse_moves(read: &Vec<NodeAnalysis>) -> (out: Option<MoveAnalysis>)
    ensures
        all_fingerprints(read.deep_view()).len() <= u32::MAX ==> out is Some,
        out matches Some(analysis) ==> analyses(analysis, read.deep_view()),
        all_fingerprints(read.deep_view()).len() > u32::MAX ==> out is None,
{
    let all = fingerprints(read);
    if all.len() > 0xffff_ffff {
        return None;
    }
    let frequencies = count_frequencies(&all);
    let rankings = rank_nodes(read, &frequencies);
    Some(MoveAnalysis { frequencies, rankings })
}

/// Where the nodes can be read, they are read into as many moves as they
/// were given with.
pub proof fn lemma_moves_read(nodes: Seq<NodeText>, task: Task)
    requires
        nodes_reading(nodes, task) is Ok,
    ensures
        all_fingerprints(nodes_reading(nodes, task)->Ok_0).len() == total_moves(nodes),
    decreases nodes.len(),
{
    if nodes.len() > 0 {
        lemma_moves_read(nodes.drop_last(), task);
        lemma_entries_read(nodes.last().fen, nodes.last().moves, task);
        let earlier = nodes_reading(nodes.drop_last(), task)->Ok_0;
        let node = node_reading(nodes.last(), task)->Ok_0;
        let read = nodes_reading(nodes, task)->Ok_0;
        assert(read == earlier.push(node));
        assert(read.drop_last() =~= earlier);
        assert(read.last() == node);
    } else {
        assert(nodes_reading(nodes, task)->Ok_0 =~= Seq::<NodeView>::empty());
    }
}

proof fn lemma_entries_read(fen: Seq<char>, moves: Seq<Seq<char>>, task: Task)
    requires
        entries_reading(fen, moves, task) is Ok,
    ensures
        entries_reading(fen, moves, task)->Ok_0.len() == moves.len(),
    decreases moves.len(),
{
    if moves.len() > 0 {
        lemma_entries_read(fen, moves.drop_last(), task);
    }
}

/// Reads the moves of the nodes, counts how often each move is played
/// across all of them, and lists the moves of each node from the most to
/// the least frequent. The first position or move that cannot be read is
/// refused, and nothing is counted.
pub fn player_move_analysis(nodes: Vec<NodeInput>) -> (out: Result<MoveAnalysis, ChessError>)
    requires
        total_moves(nodes.deep_view()) <= u32::MAX,
    ensures
        match nodes_reading(nodes.deep_view(), Task::Analysis) {
            Ok(read) => out matches Ok(analysis) && analyses(analysis, read),
            Err(failure) => out matches Err(e) && e@ == failure,
        },
{
    match collect_moves(&nodes) {
        Ok(read) => {
            proof {
                lemma_moves_read(nodes.deep_view(), Task::Analysis);
            }
            match analyse_moves(&read) {
                Some(analysis) => Ok(analysis),
                None => Err(ChessError::NoOrigin),
            }
        },
        Err(e) => Err(e),
    }
}


} // verus!
