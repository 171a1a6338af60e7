//! Splitting a repertoire into parts of bounded size.
//!
//! A repertoire is a graph: its nodes are positions, its edges moves. Every
//! node has a count of the moves that can be reached from it. A node whose
//! count is within the bound is a part by itself; a larger one is split
//! into the parts of its children, which are taken in the order of their
//! moves' notation. Each part is named by the position it starts from and
//! the moves that lead there.

use crate::chess::move_facts;
use crate::chess::move_reading;
use crate::chess::position_facts;
use crate::chess::position_reading;
use crate::chess::FenFailure;
use crate::chess::FenFault;
use crate::chess::MoveFailure;
use crate::chess::MoveFault;
use crate::fen::fen_error;
use crate::fen::fen_failure;
use crate::fen::ChessError;
use crate::fen::ChessFailure;
use crate::fen::Task;
use crate::order::indices;
use crate::order::keys_of;
use crate::order::ranking;
use crate::order::ranking_of;
use crate::order::RankKey;
use crate::order::SortKey;
use vstd::prelude::*;
use vstd::string::StringExecFns;

verus! {

// ---------------------------------------------------------------------------
// The graph
// ---------------------------------------------------------------------------

/// A move out of a node.
#[derive(Debug)]
pub struct Edge {
    pub uci: String,
    /// The number of the node that the move leads to.
    pub to: usize,
}

/// A position of the graph.
#[derive(Debug)]
pub struct GraphNode {
    pub fen: String,
    /// Whether the position was given as a node, with its moves; a position
    /// that only occurs as the end of a move was not.
    pub known: bool,
    pub edges: Vec<Edge>,
}

/// The mathematical content of an [`Edge`].
pub struct EdgeView {
    pub uci: Seq<char>,
    pub to: usize,
}

/// The mathematical content of a [`GraphNode`].
pub struct GraphNodeView {
    pub fen: Seq<char>,
    pub known: bool,
    pub edges: Seq<EdgeView>,
}

impl DeepView for Edge {
    type V = EdgeView;

    open spec fn deep_view(&self) -> EdgeView {
        EdgeView { uci: self.uci@, to: self.to }
    }
}

impl DeepView for GraphNode {
    type V = GraphNodeView;

    open spec fn deep_view(&self) -> GraphNodeView {
        GraphNodeView { fen: self.fen@, known: self.known, edges: self.edges.deep_view() }
    }
}

/// Whether every move of `graph` leads to a node of `graph`.
pub open spec fn well_formed(graph: Seq<GraphNodeView>) -> bool {
    forall|v: int, j: int|
        0 <= v < graph.len() && 0 <= j < graph[v].edges.len() ==> (#[trigger] graph[v].edges[j]).to
            < graph.len()
}

/// Whether `path` names nodes of a graph of `n` nodes, none of them twice.
pub open spec fn is_path(path: Seq<int>, n: int) -> bool {
    &&& path.no_duplicates()
    &&& forall|i: int| 0 <= i < path.len() ==> 0 <= #[trigger] path[i] < n
}

/// A path is no longer than the graph has nodes.
pub proof fn lemma_path_bound(path: Seq<int>, n: int)
    requires
        is_path(path, n),
        0 <= n,
    ensures
        path.len() <= n,
{
    let range = vstd::set_lib::set_int_range(0, n);
    vstd::set_lib::lemma_int_range(0, n);
    assert(path.to_set().subset_of(range)) by {
        assert forall|x: int| path.to_set().contains(x) implies range.contains(x) by {
            let i = choose|i: int| 0 <= i < path.len() && path[i] == x;
            assert(0 <= path[i] < n);
        }
    }
    vstd::set_lib::lemma_len_subset(path.to_set(), range);
    path.unique_seq_to_set();
}

/// A node that is not on a path can be added to it.
pub proof fn lemma_path_grows(path: Seq<int>, n: int, v: int)
    requires
        is_path(path, n),
        0 <= v < n,
        !path.contains(v),
    ensures
        is_path(path.push(v), n),
        path.len() < n,
{
    let longer = path.push(v);
    assert forall|i: int, j: int| 0 <= i < longer.len() && 0 <= j < longer.len() && i
        != j implies longer[i] != longer[j] by {
        if i < path.len() && j < path.len() {
            assert(path[i] != path[j]);
        } else if i < path.len() {
            assert(path.contains(path[i]));
        } else {
            assert(path.contains(path[j]));
        }
    }
    lemma_path_bound(longer, n);
}

// ---------------------------------------------------------------------------
// The order of the children
// ---------------------------------------------------------------------------

/// The notation of the moves `edges` out of the position with the FEN
/// `fen`, in order, or the failure of the first move that cannot be read.
pub open spec fn child_sans(fen: Seq<char>, edges: Seq<EdgeView>) -> Result<
    Seq<Seq<char>>,
    ChessFailure,
>
    decreases edges.len(),
{
    if edges.len() == 0 {
        Ok(Seq::empty())
    } else {
        match child_sans(fen, edges.drop_last()) {
            Err(e) => Err(e),
            Ok(sans) => match move_reading(fen, edges.last().uci) {
                Ok(m) => Ok(sans.push(m.san)),
                Err(MoveFailure::Syntax(detail)) => Err(
                    ChessFailure::InvalidUci {
                        uci: edges.last().uci,
                        fen,
                        task: Task::SortingChildren,
                        detail,
                    },
                ),
                Err(MoveFailure::Illegal) => Err(
                    ChessFailure::IllegalMove { uci: edges.last().uci, fen },
                ),
                Err(MoveFailure::Position) => match position_reading(fen) {
                    Err(fault) => Err(fen_failure(fault, fen, Task::SortingChildren)),
                    Ok(_) => Err(ChessFailure::NoOrigin),
                },
            },
        }
    }
}

/// A refusal among the first moves is the refusal of all.
pub proof fn lemma_sans_refusal_stands(fen: Seq<char>, edges: Seq<EdgeView>, k: int)
    requires
        0 <= k <= edges.len(),
        child_sans(fen, edges.take(k)) is Err,
    ensures
        child_sans(fen, edges) == child_sans(fen, edges.take(k)),
    decreases edges.len() - k,
{
    if k == edges.len() {
        assert(edges.take(k) =~= edges);
    } else {
        assert(edges.take(k + 1).drop_last() =~= edges.take(k));
        lemma_sans_refusal_stands(fen, edges, k + 1);
    }
}

/// What the moves with the notations `sans` are ordered by.
pub open spec fn san_keys(sans: Seq<Seq<char>>) -> Seq<RankKey> {
    Seq::new(sans.len(), |i: int| RankKey { frequency: 0, san: sans[i] })
}

/// The order in which the moves out of `node` are taken: by their notation,
/// moves with the same notation as they came. A node that was not given has
/// no moves; the position of one that was given must be legal, and so must
/// its moves.
pub open spec fn children_order(node: GraphNodeView) -> Result<Seq<int>, ChessFailure> {
    if !node.known {
        Ok(Seq::empty())
    } else {
        match position_reading(node.fen) {
            Err(fault) => Err(fen_failure(fault, node.fen, Task::SortingChildren)),
            Ok(_) => match child_sans(node.fen, node.edges) {
                Err(e) => Err(e),
                Ok(sans) => Ok(ranking(san_keys(sans))),
            },
        }
    }
}

/// The view of an order or an error.
pub open spec fn order_or_failure(out: Result<Vec<usize>, ChessError>) -> Result<
    Seq<int>,
    ChessFailure,
> {
    match out {
        Ok(order) => Ok(indices(order@)),
        Err(e) => Err(e@),
    }
}

/// Every notation read is the notation of one move.
proof fn lemma_sans_count(fen: Seq<char>, edges: Seq<EdgeView>)
    requires
        child_sans(fen, edges) is Ok,
    ensures
        child_sans(fen, edges)->Ok_0.len() == edges.len(),
    decreases edges.len(),
{
    if edges.len() > 0 {
        lemma_sans_count(fen, edges.drop_last());
    }
}

/// Gives the order in which the moves out of `node` are taken.
pub fn sort_children(node: &GraphNode) -> (out: Result<Vec<usize>, ChessError>)
    ensures
        order_or_failure(out) == children_order(node.deep_view()),
        out matches Ok(order) ==> (forall|k: int|
            0 <= k < order.len() ==> (#[trigger] order[k]) < node.edges.len()) && (node.known
            ==> order.len() == node.edges.len()),
{
    if !node.known {
        let order: Vec<usize> = Vec::new();
        assert(indices(order@) =~= Seq::<int>::empty());
        return Ok(order);
    }
    match position_facts(node.fen.as_str()) {
        Err(fault) => {
            return Err(fen_error(fault, node.fen.as_str(), Task::SortingChildren));
        },
        Ok(_) => {},
    }
    let ghost edges = node.edges.deep_view();
    let ghost mut sans: Seq<Seq<char>> = Seq::empty();
    let mut keys: Vec<SortKey> = Vec::new();
    let mut i: usize = 0;
    assert(edges.take(0) =~= Seq::<EdgeView>::empty());
    assert(keys_of(keys@) =~= san_keys(sans));
    while i < node.edges.len()
        invariant
            i <= node.edges.len(),
            node.known,
            edges == node.edges.deep_view(),
            position_reading(node.fen@) is Ok,
            child_sans(node.fen@, edges.take(i as int)) == Ok::<Seq<Seq<char>>, ChessFailure>(sans),
            keys_of(keys@) == san_keys(sans),
            keys.len() == i,
            sans.len() == i,
        decreases node.edges.len() - i,
    {
        assert(edges.take(i + 1).drop_last() =~= edges.take(i as int));
        assert(edges.take(i + 1).last() == node.edges[i as int].deep_view());
        let uci = node.edges[i].uci.as_str();
        match move_facts(node.fen.as_str(), uci) {
            Ok(m) => {
                let ghost keys_before = keys_of(keys@);
                let ghost sans_before = sans;
                proof {
                    sans = sans.push(m.san@);
                }
                keys.push(SortKey { frequency: 0, san: m.san });
                proof {
                    assert forall|k: int| 0 <= k < keys.len() implies keys_of(keys@)[k] == san_keys(
                        sans,
                    )[k] by {
                        if k < i {
                            assert(keys_of(keys@)[k] == keys_before[k]);
                            assert(san_keys(sans)[k] == san_keys(sans_before)[k]);
                        }
                    }
                    assert(keys_of(keys@) =~= san_keys(sans));
                }
            },
            Err(MoveFault::Syntax(detail)) => {
                proof {
                    lemma_sans_refusal_stands(node.fen@, edges, i + 1);
                }
                return Err(
                    ChessError::InvalidUci {
                        uci: String::from_str(uci),
                        fen: node.fen.clone(),
                        task: Task::SortingChildren,
                        detail,
                    },
                );
            },
            Err(MoveFault::Illegal) => {
                proof {
                    lemma_sans_refusal_stands(node.fen@, edges, i + 1);
                }
                return Err(
                    ChessError::IllegalMove { uci: String::from_str(uci), fen: node.fen.clone() },
                );
            },
            Err(MoveFault::Position) => {
                proof {
                    lemma_sans_refusal_stands(node.fen@, edges, i + 1);
                }
                return Err(ChessError::NoOrigin);
            },
        }
        i += 1;
    }
    assert(edges.take(node.edges.len() as int) =~= edges);
    Ok(ranking_of(&keys))
}

// ---------------------------------------------------------------------------
// Counting the moves
// ---------------------------------------------------------------------------

/// The sum of two counts; a sum beyond the largest count is that largest
/// count.
pub open spec fn count_sum(a: u64, b: u64) -> u64 {
    if a + b > u64::MAX {
        u64::MAX
    } else {
        (a + b) as u64
    }
}

/// Adds two counts.
pub fn add_counts(a: u64, b: u64) -> (out: u64)
    ensures
        out == count_sum(a, b),
{
    if b > u64::MAX - a {
        u64::MAX
    } else {
        a + b
    }
}

/// The count of node `v` and the counts known after it was visited, where
/// the counts `memo` were known before and the visit came along `stack`.
///
/// A count once known stands. A node that is met again while it is being
/// visited counts for nothing there, which cuts every cycle. Else the count
/// of a node is the number of its moves and the counts of the nodes that
/// they lead to, visited in order.
pub open spec fn visit(
    graph: Seq<GraphNodeView>,
    v: int,
    stack: Seq<int>,
    memo: Map<int, u64>,
) -> (u64, Map<int, u64>)
    decreases graph.len() - stack.len(), 0int, 0int,
{
    if memo.contains_key(v) {
        (memo[v], memo)
    } else if stack.contains(v) || !(is_path(stack, graph.len() as int) && 0 <= v < graph.len()) {
        (0, memo)
    } else {
        proof {
            lemma_path_grows(stack, graph.len() as int, v);
        }
        let (total, after) = visit_children(
            graph,
            v,
            0,
            stack.push(v),
            memo,
            graph[v].edges.len() as u64,
        );
        (total, after.insert(v, total))
    }
}

/// The count of node `v` once its moves from the `i`-th on are added to
/// `total`, and the counts known then.
pub open spec fn visit_children(
    graph: Seq<GraphNodeView>,
    v: int,
    i: int,
    stack: Seq<int>,
    memo: Map<int, u64>,
    total: u64,
) -> (u64, Map<int, u64>)
    decreases graph.len() - stack.len(), 1int, graph[v].edges.len() - i,
{
    if !(0 <= v < graph.len()) || i < 0 || i >= graph[v].edges.len() {
        (total, memo)
    } else {
        let (below, after) = visit(graph, graph[v].edges[i].to as int, stack, memo);
        visit_children(graph, v, i + 1, stack, after, count_sum(total, below))
    }
}

/// The counts known after every given node among the first `upto` was
/// visited, in order.
pub open spec fn visit_all(graph: Seq<GraphNodeView>, upto: int, memo: Map<int, u64>) -> Map<
    int,
    u64,
>
    decreases upto,
{
    if upto <= 0 || upto > graph.len() {
        memo
    } else {
        let earlier = visit_all(graph, upto - 1, memo);
        if graph[upto - 1].known {
            visit(graph, upto - 1, Seq::empty(), earlier).1
        } else {
            earlier
        }
    }
}

/// The counts that `memo` holds.
pub open spec fn known_counts(memo: Seq<Option<u64>>) -> Map<int, u64> {
    Map::new(|k: int| 0 <= k < memo.len() && memo[k] is Some, |k: int| memo[k]->0)
}

/// The count of every node of `graph`: what visiting the given nodes in
/// order gives, and nothing for a node that no visit reaches.
pub open spec fn move_counts(graph: Seq<GraphNodeView>) -> Seq<u64> {
    let memo = visit_all(graph, graph.len() as int, Map::empty());
    Seq::new(
        graph.len(),
        |v: int|
            if memo.contains_key(v) {
                memo[v]
            } else {
                0
            },
    )
}

fn dfs_move_count(
    graph: &Vec<GraphNode>,
    v: usize,
    memo: &mut Vec<Option<u64>>,
    visiting: &mut Vec<bool>,
    Ghost(stack): Ghost<Seq<int>>,
) -> (out: u64)
    requires
        well_formed(graph.deep_view()),
        v < graph.len(),
        old(memo).len() == graph.len(),
        old(visiting).len() == graph.len(),
        is_path(stack, graph.len() as int),
        marks_path(old(visiting)@, stack),
    ensures
        (out, known_counts(final(memo)@)) == visit(
            graph.deep_view(),
            v as int,
            stack,
            known_counts(old(memo)@),
        ),
        final(memo).len() == graph.len(),
        final(visiting)@ == old(visiting)@,
    decreases graph.len() - stack.len(),
{
    let ghost g = graph.deep_view();
    let ghost known = known_counts(memo@);
    match memo[v] {
        Some(count) => {
            return count;
        },
        None => {},
    }
    if visiting[v] {
        return 0;
    }
    proof {
        assert(!stack.contains(v as int));
        lemma_path_grows(stack, graph.len() as int, v as int);
    }
    let ghost marks_before = visiting@;
    let ghost longer = stack.push(v as int);
    visiting.set(v, true);
    proof {
        assert forall|k: int| 0 <= k < visiting.len() implies (#[trigger] visiting@[k]
            <==> longer.contains(k)) by {
            if k == v {
                assert(longer[stack.len() as int] == k);
            } else {
                assert(visiting@[k] == marks_before[k]);
                if stack.contains(k) {
                    let j = choose|j: int| 0 <= j < stack.len() && stack[j] == k;
                    assert(longer[j] == k);
                }
                if longer.contains(k) {
                    let j = choose|j: int| 0 <= j < longer.len() && longer[j] == k;
                    assert(stack[j] == k);
                }
            }
        }
    }
    assert(g[v as int] == graph[v as int].deep_view());
    let edges = &graph[v].edges;
    let mut total: u64 = edges.len() as u64;
    let ghost wanted = visit_children(g, v as int, 0, longer, known, total);
    let mut i: usize = 0;
    while i < edges.len()
        invariant
            i <= edges.len(),
            g == graph.deep_view(),
            well_formed(g),
            v < graph.len(),
            edges.deep_view() == g[v as int].edges,
            memo.len() == graph.len(),
            visiting.len() == graph.len(),
            is_path(longer, graph.len() as int),
            marks_path(visiting@, longer),
            longer == stack.push(v as int),
            visiting@ == marks_before.update(v as int, true),
            wanted == visit_children(g, v as int, i as int, longer, known_counts(memo@), total),
        decreases edges.len() - i,
    {
        assert(g[v as int].edges[i as int] == edges[i as int].deep_view());
        let to = edges[i].to;
        assert(to < graph.len());
        proof {
            lemma_path_bound(longer, graph.len() as int);
        }
        let below = dfs_move_count(graph, to, memo, visiting, Ghost(longer));
        total = add_counts(total, below);
        i += 1;
    }
    visiting.set(v, false);
    memo.set(v, Some(total));
    proof {
        assert(visiting@ =~= marks_before);
        assert(known_counts(memo@) =~= wanted.1.insert(v as int, total));
    }
    total
}

fn compute_move_counts(graph: &Vec<GraphNode>) -> (out: Vec<u64>)
    requires
        well_formed(graph.deep_view()),
    ensures
        out@ == move_counts(graph.deep_view()),
{
    let ghost g = graph.deep_view();
    let n = graph.len();
    let mut memo: Vec<Option<u64>> = Vec::new();
    let mut visiting: Vec<bool> = Vec::new();
    let mut k: usize = 0;
    while k < n
        invariant
            k <= n,
            memo.len() == k,
            visiting.len() == k,
            forall|j: int| 0 <= j < k ==> (#[trigger] memo[j]) is None,
            forall|j: int| 0 <= j < k ==> !(#[trigger] visiting[j]),
        decreases n - k,
    {
        memo.push(None);
        visiting.push(false);
        k += 1;
    }
    assert(known_counts(memo@) =~= Map::<int, u64>::empty());
    let ghost nothing: Seq<int> = Seq::empty();
    let mut v: usize = 0;
    while v < n
        invariant
            v <= n,
            n == graph.len(),
            g == graph.deep_view(),
            well_formed(g),
            memo.len() == n,
            visiting.len() == n,
            nothing == Seq::<int>::empty(),
            forall|j: int| 0 <= j < n ==> !(#[trigger] visiting[j]),
            known_counts(memo@) == visit_all(g, v as int, Map::empty()),
        decreases n - v,
    {
        assert(g[v as int] == graph[v as int].deep_view());
        if graph[v].known {
            let _ = dfs_move_count(graph, v, &mut memo, &mut visiting, Ghost(nothing));
        }
        v += 1;
    }
    let mut counts: Vec<u64> = Vec::new();
    let mut j: usize = 0;
    while j < n
        invariant
            j <= n,
            n == graph.len(),
            memo.len() == n,
            counts.len() == j,
            known_counts(memo@) == visit_all(g, n as int, Map::empty()),
            forall|k: int| 0 <= k < j ==> (#[trigger] counts[k]) == move_counts(g)[k],
            g.len() == n,
        decreases n - j,
    {
        let count = match memo[j] {
            Some(count) => count,
            None => 0,
        };
        counts.push(count);
        j += 1;
    }
    assert(counts@ =~= move_counts(g));
    counts
}

// ---------------------------------------------------------------------------
// Splitting
// ---------------------------------------------------------------------------

/// One part of a repertoire: the position that it starts from, the moves
/// that lead there, and the count of the moves in it.
#[derive(Debug)]
pub struct SplitEventPayload {
    pub fen: String,
    pub prefix: Vec<String>,
    pub move_count: u64,
}

/// The mathematical content of a [`SplitEventPayload`].
pub struct EventView {
    pub fen: Seq<char>,
    pub prefix: Seq<Seq<char>>,
    pub move_count: u64,
}

impl DeepView for SplitEventPayload {
    type V = EventView;

    open spec fn deep_view(&self) -> EventView {
        EventView { fen: self.fen@, prefix: self.prefix.deep_view(), move_count: self.move_count }
    }
}

/// The parts of node `v`, which is reached along `path` by the moves
/// `prefix`: the node itself where its count is within `max_moves` or it
/// has no moves, else the parts of its children.
pub open spec fn split_from(
    graph: Seq<GraphNodeView>,
    counts: Seq<u64>,
    max_moves: u64,
    v: int,
    path: Seq<int>,
    prefix: Seq<Seq<char>>,
) -> Result<Seq<EventView>, ChessFailure>
    decreases graph.len() - path.len(), 1int, 0int,
{
    if !(0 <= v < graph.len() && counts.len() == graph.len()) {
        Ok(Seq::empty())
    } else {
        match children_order(graph[v]) {
            Err(e) => Err(e),
            Ok(order) => if counts[v] <= max_moves || order.len() == 0 {
                Ok(seq![EventView { fen: graph[v].fen, prefix, move_count: counts[v] }])
            } else {
                split_children(graph, counts, max_moves, v, order, 0, path, prefix)
            },
        }
    }
}

/// The parts of the children of node `v` from the `i`-th in `order` on. A
/// child that lies on the path already is left out.
pub open spec fn split_children(
    graph: Seq<GraphNodeView>,
    counts: Seq<u64>,
    max_moves: u64,
    v: int,
    order: Seq<int>,
    i: int,
    path: Seq<int>,
    prefix: Seq<Seq<char>>,
) -> Result<Seq<EventView>, ChessFailure>
    decreases graph.len() - path.len(), 0int, order.len() - i,
{
    if i < 0 || i >= order.len() || !(0 <= v < graph.len()) {
        Ok(Seq::empty())
    } else if !(0 <= order[i] < graph[v].edges.len()) {
        split_children(graph, counts, max_moves, v, order, i + 1, path, prefix)
    } else {
        let edge = graph[v].edges[order[i]];
        if path.contains(edge.to as int) || !(is_path(path, graph.len() as int) && edge.to
            < graph.len()) {
            split_children(graph, counts, max_moves, v, order, i + 1, path, prefix)
        } else {
            proof {
                lemma_path_grows(path, graph.len() as int, edge.to as int);
            }
            match split_from(
                graph,
                counts,
                max_moves,
                edge.to as int,
                path.push(edge.to as int),
                prefix.push(edge.uci),
            ) {
                Err(e) => Err(e),
                Ok(events) => match split_children(
                    graph,
                    counts,
                    max_moves,
                    v,
                    order,
                    i + 1,
                    path,
                    prefix,
                ) {
                    Ok(rest) => Ok(events + rest),
                    Err(e) => Err(e),
                },
            }
        }
    }
}

/// Whether `marks` marks exactly the nodes of `path`.
pub open spec fn marks_path(marks: Seq<bool>, path: Seq<int>) -> bool {
    forall|k: int| 0 <= k < marks.len() ==> (#[trigger] marks[k] <==> path.contains(k))
}

/// `rest` with the parts `found` before it.
pub open spec fn after_events(
    found: Seq<EventView>,
    rest: Result<Seq<EventView>, ChessFailure>,
) -> Result<Seq<EventView>, ChessFailure> {
    match rest {
        Ok(events) => Ok(found + events),
        Err(e) => Err(e),
    }
}

fn split_node(
    graph: &Vec<GraphNode>,
    counts: &Vec<u64>,
    max_moves: u64,
    v: usize,
    on_path: &mut Vec<bool>,
    prefix: &mut Vec<String>,
    events: &mut Vec<SplitEventPayload>,
    Ghost(path): Ghost<Seq<int>>,
) -> (out: Result<(), ChessError>)
    requires
        well_formed(graph.deep_view()),
        v < graph.len(),
        counts.len() == graph.len(),
        old(on_path).len() == graph.len(),
        is_path(path, graph.len() as int),
        marks_path(old(on_path)@, path),
    ensures
        match out {
            Ok(_) => {
                &&& split_from(
                    graph.deep_view(),
                    counts@,
                    max_moves,
                    v as int,
                    path,
                    old(prefix).deep_view(),
                ) matches Ok(found)
                &&& final(events).deep_view() == old(events).deep_view() + found
                &&& final(on_path)@ == old(on_path)@
                &&& final(prefix).deep_view() == old(prefix).deep_view()
            },
            Err(e) => split_from(
                graph.deep_view(),
                counts@,
                max_moves,
                v as int,
                path,
                old(prefix).deep_view(),
            ) == Err::<Seq<EventView>, ChessFailure>(e@),
        },
    decreases graph.len() - path.len(),
{
    let ghost g = graph.deep_view();
    let ghost given = old(prefix).deep_view();
    let ghost before = old(events).deep_view();
    assert(g[v as int] == graph[v as int].deep_view());
    let order = match sort_children(&graph[v]) {
        Ok(order) => order,
        Err(e) => {
            return Err(e);
        },
    };
    let count = counts[v];
    if count <= max_moves || order.len() == 0 {
        let fen = graph[v].fen.clone();
        let moves = copy_moves(prefix);
        events.push(SplitEventPayload { fen, prefix: moves, move_count: count });
        assert(events.deep_view() =~= before + seq![
            EventView { fen: g[v as int].fen, prefix: given, move_count: count },
        ]);
        return Ok(());
    }
    let ghost wanted = split_children(g, counts@, max_moves, v as int, indices(order@), 0, path, given);
    let mut i: usize = 0;
    proof {
        if wanted is Ok {
            assert(Seq::<EventView>::empty() + wanted->Ok_0 =~= wanted->Ok_0);
        }
        assert(events.deep_view() =~= before + Seq::<EventView>::empty());
    }
    let ghost mut found: Seq<EventView> = Seq::empty();
    while i < order.len()
        invariant
            i <= order.len(),
            g == graph.deep_view(),
            well_formed(g),
            v < graph.len(),
            counts.len() == graph.len(),
            on_path.len() == graph.len(),
            is_path(path, graph.len() as int),
            marks_path(on_path@, path),
            on_path@ == old(on_path)@,
            prefix.deep_view() == given,
            given == old(prefix).deep_view(),
            forall|k: int| 0 <= k < order.len() ==> (#[trigger] order[k]) < graph[v as int].edges.len(),
            events.deep_view() == before + found,
            split_from(g, counts@, max_moves, v as int, path, given) == wanted,
            wanted == split_children(
                g,
                counts@,
                max_moves,
                v as int,
                indices(order@),
                0,
                path,
                given,
            ),
            wanted == after_events(
                found,
                split_children(g, counts@, max_moves, v as int, indices(order@), i as int, path, given),
            ),
        decreases order.len() - i,
    {
        let pick = order[i];
        assert(indices(order@)[i as int] == pick);
        assert(g[v as int].edges[pick as int] == graph[v as int].edges[pick as int].deep_view());
        let edge = &graph[v].edges[pick];
        let to = edge.to;
        assert(to < graph.len());
        if !on_path[to] {
            proof {
                assert(!path.contains(to as int));
                lemma_path_grows(path, graph.len() as int, to as int);
            }
            let ghost marks_before = on_path@;
            let ghost events_before = events.deep_view();
            on_path.set(to, true);
            prefix.push(edge.uci.clone());
            proof {
                let longer = path.push(to as int);
                assert(prefix.deep_view() =~= given.push(edge.uci@));
                assert forall|k: int| 0 <= k < on_path.len() implies (#[trigger] on_path@[k]
                    <==> longer.contains(k)) by {
                    if k == to {
                        assert(longer[path.len() as int] == k);
                    } else {
                        assert(on_path@[k] == marks_before[k]);
                        if path.contains(k) {
                            let j = choose|j: int| 0 <= j < path.len() && path[j] == k;
                            assert(longer[j] == k);
                        }
                        if longer.contains(k) {
                            let j = choose|j: int| 0 <= j < longer.len() && longer[j] == k;
                            assert(path[j] == k);
                        }
                    }
                }
            }
            let below = split_node(
                graph,
                counts,
                max_moves,
                to,
                on_path,
                prefix,
                events,
                Ghost(path.push(to as int)),
            );
            match below {
                Err(e) => {
                    proof {
                        let deeper = split_from(
                            g,
                            counts@,
                            max_moves,
                            to as int,
                            path.push(to as int),
                            given.push(edge.uci@),
                        );
                        assert(deeper == Err::<Seq<EventView>, ChessFailure>(e@));
                        assert(g[v as int].edges[pick as int].to == to);
                        assert(g[v as int].edges[pick as int].uci == edge.uci@);
                        assert(split_children(
                            g,
                            counts@,
                            max_moves,
                            v as int,
                            indices(order@),
                            i as int,
                            path,
                            given,
                        ) == Err::<Seq<EventView>, ChessFailure>(e@));
                    }
                    return Err(e);
                },
                Ok(_) => {},
            }
            on_path.set(to, false);
            let ghost longer_prefix = prefix.deep_view();
            let ghost longer_moves = prefix@;
            let _ = prefix.pop();
            proof {
                assert(on_path@ =~= marks_before);
                assert forall|k: int| 0 <= k < prefix.len() implies prefix.deep_view()[k]
                    == given[k] by {
                    assert(prefix@[k] == longer_moves[k]);
                    assert(longer_prefix[k] == longer_moves[k]@);
                }
                assert(prefix.deep_view() =~= given);
                let deeper = split_from(
                    g,
                    counts@,
                    max_moves,
                    to as int,
                    path.push(to as int),
                    given.push(edge.uci@),
                )->Ok_0;
                let rest = split_children(
                    g,
                    counts@,
                    max_moves,
                    v as int,
                    indices(order@),
                    i + 1,
                    path,
                    given,
                );
                if rest is Ok {
                    assert(found + (deeper + rest->Ok_0) =~= (found + deeper) + rest->Ok_0);
                }
                assert(events.deep_view() =~= before + (found + deeper));
                found = found + deeper;
            }
        }
        i += 1;
    }
    proof {
        assert(found + Seq::<EventView>::empty() =~= found);
    }
    Ok(())
}

fn copy_moves(moves: &Vec<String>) -> (out: Vec<String>)
    ensures
        out.deep_view() == moves.deep_view(),
{
    let mut out: Vec<String> = Vec::new();
    let mut i: usize = 0;
    while i < moves.len()
        invariant
            i <= moves.len(),
            out.len() == i,
            forall|k: int| 0 <= k < i ==> (#[trigger] out[k])@ == moves[k]@,
        decreases moves.len() - i,
    {
        out.push(moves[i].clone());
        i += 1;
    }
    assert(out.deep_view() =~= moves.deep_view());
    out
}


// ---------------------------------------------------------------------------
// From a list of nodes to a graph
// ---------------------------------------------------------------------------

/// A move out of a node as it is given: the move in UCI notation and the
/// FEN of the position that it leads to.
#[derive(Debug, Clone)]
pub struct SplitChildInput {
    pub uci: String,
    pub fen: String,
}

/// A node as it is given: the FEN of a position and the moves out of it.
#[derive(Debug, Clone)]
pub struct SplitNodeInput {
    pub fen: String,
    pub children: Vec<SplitChildInput>,
}

/// The mathematical content of a [`SplitChildInput`].
pub struct ChildText {
    pub uci: Seq<char>,
    pub fen: Seq<char>,
}

/// The mathematical content of a [`SplitNodeInput`].
pub struct NodeChildren {
    pub fen: Seq<char>,
    pub children: Seq<ChildText>,
}

impl DeepView for SplitChildInput {
    type V = ChildText;

    open spec fn deep_view(&self) -> ChildText {
        ChildText { uci: self.uci@, fen: self.fen@ }
    }
}

impl DeepView for SplitNodeInput {
    type V = NodeChildren;

    open spec fn deep_view(&self) -> NodeChildren {
        NodeChildren { fen: self.fen@, children: self.children.deep_view() }
    }
}

/// Whether no two nodes of `graph` have the same FEN.
pub open spec fn distinct_fens(graph: Seq<GraphNodeView>) -> bool {
    forall|a: int, b: int|
        0 <= a < graph.len() && 0 <= b < graph.len() && a != b ==> (#[trigger] graph[a]).fen != (
        #[trigger] graph[b]).fen
}

/// Whether node `i` of `nodes` is the last one given for the FEN `fen`: a
/// later node for a position takes the place of an earlier one.
pub open spec fn is_last_for(nodes: Seq<NodeChildren>, i: int, fen: Seq<char>) -> bool {
    &&& 0 <= i < nodes.len()
    &&& nodes[i].fen == fen
    &&& forall|j: int| i < j < nodes.len() ==> (#[trigger] nodes[j]).fen != fen
}

/// Whether node `i` of `nodes` is the first one given for the FEN `fen`.
pub open spec fn is_first_for(nodes: Seq<NodeChildren>, i: int, fen: Seq<char>) -> bool {
    &&& 0 <= i < nodes.len()
    &&& nodes[i].fen == fen
    &&& forall|j: int| 0 <= j < i ==> (#[trigger] nodes[j]).fen != fen
}

/// Whether the known nodes of `graph` come before all others, in the order
/// in which their positions are first given in `nodes`.
pub open spec fn in_given_order(graph: Seq<GraphNodeView>, nodes: Seq<NodeChildren>) -> bool {
    &&& forall|a: int, b: int|
        0 <= a < b < graph.len() && (#[trigger] graph[b]).known ==> (#[trigger] graph[a]).known
    &&& forall|a: int, b: int, i: int, j: int|
        0 <= a < b < graph.len() && graph[b].known && #[trigger] is_first_for(
            nodes,
            i,
            graph[a].fen,
        ) && #[trigger] is_first_for(nodes, j, graph[b].fen) ==> i < j
}

/// Whether the moves out of node `v` of `graph` are the moves `children`,
/// in order, each to the node of the position that it leads to.
pub open spec fn edges_match(graph: Seq<GraphNodeView>, v: int, children: Seq<ChildText>) -> bool {
    &&& graph[v].edges.len() == children.len()
    &&& forall|j: int|
        0 <= j < children.len() ==> (#[trigger] graph[v].edges[j]).uci == children[j].uci
            && graph[v].edges[j].to < graph.len() && graph[graph[v].edges[j].to as int].fen
            == children[j].fen
}

/// Whether `graph` has a known node for the position `fen`.
pub open spec fn has_known_node(graph: Seq<GraphNodeView>, fen: Seq<char>) -> bool {
    exists|v: int| 0 <= v < graph.len() && (#[trigger] graph[v]).known && graph[v].fen == fen
}

/// Whether node `v` of `graph` has the moves of the last of `nodes` that
/// was given for its position.
pub open spec fn has_moves_of(graph: Seq<GraphNodeView>, v: int, nodes: Seq<NodeChildren>) -> bool {
    exists|i: int|
        is_last_for(nodes, i, graph[v].fen) && edges_match(graph, v, (#[trigger] nodes[i]).children)
}

/// Whether `graph` is the graph that `nodes` describe, with node `root` for
/// the position `root_fen`: every position has one node; a position that
/// was given is known and has the moves of the last node given for it; any
/// other has no moves. The known nodes come first, in the order in which
/// their positions are first given, which is the order in which their moves
/// are counted.
pub open spec fn represents(
    graph: Seq<GraphNodeView>,
    root: int,
    root_fen: Seq<char>,
    nodes: Seq<NodeChildren>,
) -> bool {
    &&& well_formed(graph)
    &&& distinct_fens(graph)
    &&& 0 <= root < graph.len()
    &&& graph[root].fen == root_fen
    &&& forall|i: int| 0 <= i < nodes.len() ==> #[trigger] has_known_node(graph, nodes[i].fen)
    &&& forall|v: int|
        0 <= v < graph.len() && (#[trigger] graph[v]).known ==> has_moves_of(graph, v, nodes)
    &&& forall|v: int|
        0 <= v < graph.len() && !(#[trigger] graph[v]).known ==> graph[v].edges.len() == 0
    &&& in_given_order(graph, nodes)
}

fn find_fen(graph: &Vec<GraphNode>, fen: &str) -> (out: usize)
    ensures
        out <= graph.len(),
        out < graph.len() ==> graph[out as int].fen@ == fen@,
        forall|k: int| 0 <= k < out ==> (#[trigger] graph[k]).fen@ != fen@,
{
    let mut k: usize = 0;
    while k < graph.len()
        invariant
            k <= graph.len(),
            forall|j: int| 0 <= j < k ==> (#[trigger] graph[j]).fen@ != fen@,
        decreases graph.len() - k,
    {
        if crate::text::same_text(graph[k].fen.as_str(), fen) {
            return k;
        }
        k += 1;
    }
    k
}

/// Whether `after` is `before` with, at most, one node without moves added
/// at its end.
pub open spec fn grown(before: Seq<GraphNodeView>, after: Seq<GraphNodeView>) -> bool {
    &&& before.len() <= after.len() <= before.len() + 1
    &&& forall|k: int| 0 <= k < before.len() ==> #[trigger] after[k] == before[k]
    &&& after.len() > before.len() ==> after[before.len() as int].edges.len() == 0
}

fn intern(graph: &mut Vec<GraphNode>, fen: &str, known: bool) -> (out: usize)
    requires
        distinct_fens(old(graph).deep_view()),
    ensures
        distinct_fens(final(graph).deep_view()),
        grown(old(graph).deep_view(), final(graph).deep_view()),
        out < final(graph).len(),
        final(graph)[out as int].fen@ == fen@,
        final(graph).len() > old(graph).len() ==> out == old(graph).len() && final(graph)[out as int].known
            == known,
        final(graph).len() > old(graph).len() <==> (forall|k: int|
            0 <= k < old(graph).len() ==> (#[trigger] old(graph)[k]).fen@ != fen@),
{
    let k = find_fen(graph, fen);
    let ghost before = graph.deep_view();
    if k == graph.len() {
        let edges: Vec<Edge> = Vec::new();
        graph.push(GraphNode { fen: String::from_str(fen), known, edges });
        proof {
            let after = graph.deep_view();
            assert(after[k as int].edges =~= Seq::<EdgeView>::empty());
            assert forall|a: int, b: int|
                0 <= a < after.len() && 0 <= b < after.len() && a != b implies (#[trigger] after[a]).fen
                != (#[trigger] after[b]).fen by {
                if a < k && b < k {
                    assert(after[a] == before[a]);
                    assert(after[b] == before[b]);
                } else if a < k {
                    assert(after[a] == before[a]);
                    assert(graph[a].fen@ != fen@);
                } else {
                    assert(after[b] == before[b]);
                    assert(graph[b].fen@ != fen@);
                }
            }
            assert forall|j: int| 0 <= j < before.len() implies #[trigger] after[j] == before[j] by {}
        }
    } else {
        proof {
            assert(old(graph)[k as int].fen@ == fen@);
        }
    }
    k
}

/// Whether none of the first `n` nodes has a text for its position that is
/// no FEN.
pub open spec fn all_fens(nodes: Seq<NodeChildren>, n: int) -> bool {
    forall|i: int|
        0 <= i < n ==> !(position_reading((#[trigger] nodes[i]).fen) matches Err(
            FenFailure::Syntax(_),
        ))
}

/// Whether node `i` is the first whose text for its position is no FEN, and
/// `failure` says so.
pub open spec fn first_bad_node(nodes: Seq<NodeChildren>, i: int, failure: ChessFailure) -> bool {
    &&& 0 <= i < nodes.len()
    &&& all_fens(nodes, i)
    &&& position_reading(nodes[i].fen) matches Err(FenFailure::Syntax(detail))
    &&& failure == (ChessFailure::InvalidFen { fen: nodes[i].fen, task: Task::NodeList, detail })
}

struct Known {
    graph: Vec<GraphNode>,
    /// For each node of the graph, the number of the last node given for
    /// its position.
    source: Vec<usize>,
    /// For each node of the graph, the number of the first node given for
    /// its position.
    firsts: Ghost<Seq<int>>,
}

/// Whether `firsts` names, for each node of `graph`, the first of `nodes`
/// given for its position, among the first `n` and in rising order.
spec fn holds_firsts(
    graph: Seq<GraphNodeView>,
    firsts: Seq<int>,
    nodes: Seq<NodeChildren>,
    n: int,
) -> bool {
    &&& firsts.len() == graph.len()
    &&& forall|v: int|
        0 <= v < graph.len() ==> (#[trigger] firsts[v]) < n && is_first_for(
            nodes,
            firsts[v],
            graph[v].fen,
        )
    &&& forall|a: int, b: int|
        0 <= a < b < graph.len() ==> (#[trigger] firsts[a]) < (#[trigger] firsts[b])
}

/// Whether the graph `graph` with the sources `source` holds the first `n`
/// of `nodes`, without their moves.
spec fn holds_nodes(
    graph: Seq<GraphNodeView>,
    source: Seq<usize>,
    nodes: Seq<NodeChildren>,
    n: int,
) -> bool {
    &&& distinct_fens(graph)
    &&& source.len() == graph.len()
    &&& forall|v: int|
        0 <= v < graph.len() ==> (#[trigger] graph[v]).known && graph[v].edges.len() == 0
    &&& forall|v: int|
        0 <= v < graph.len() ==> (#[trigger] source[v]) < n && nodes[source[v] as int].fen
            == graph[v].fen && forall|j: int|
            source[v] < j < n ==> (#[trigger] nodes[j]).fen != graph[v].fen
    &&& forall|i: int| 0 <= i < n ==> #[trigger] has_known_node(graph, nodes[i].fen)
}

fn take_nodes(nodes: &Vec<SplitNodeInput>) -> (out: Result<Known, ChessError>)
    ensures
        match out {
            Ok(known) => all_fens(nodes.deep_view(), nodes.len() as int) && holds_nodes(
                known.graph.deep_view(),
                known.source@,
                nodes.deep_view(),
                nodes.len() as int,
            ) && holds_firsts(
                known.graph.deep_view(),
                known.firsts@,
                nodes.deep_view(),
                nodes.len() as int,
            ),
            Err(e) => exists|i: int| first_bad_node(nodes.deep_view(), i, e@),
        },
{
    let ghost given = nodes.deep_view();
    let mut graph: Vec<GraphNode> = Vec::new();
    let mut source: Vec<usize> = Vec::new();
    let ghost mut firsts: Seq<int> = Seq::empty();
    let mut i: usize = 0;
    while i < nodes.len()
        invariant
            i <= nodes.len(),
            given == nodes.deep_view(),
            all_fens(given, i as int),
            holds_nodes(graph.deep_view(), source@, given, i as int),
            holds_firsts(graph.deep_view(), firsts, given, i as int),
        decreases nodes.len() - i,
    {
        assert(given[i as int] == nodes[i as int].deep_view());
        let fen = nodes[i].fen.as_str();
        match position_facts(fen) {
            Err(FenFault::Syntax(detail)) => {
                let e = ChessError::InvalidFen {
                    fen: String::from_str(fen),
                    task: Task::NodeList,
                    detail,
                };
                assert(first_bad_node(given, i as int, e@));
                return Err(e);
            },
            _ => {},
        }
        let ghost before = graph.deep_view();
        let ghost source_before = source@;
        let ghost size = graph.len();
        let ghost firsts_before = firsts;
        let v = intern(&mut graph, fen, true);
        if source.len() < graph.len() {
            source.push(i);
            proof {
                firsts = firsts.push(i as int);
            }
        } else {
            source.set(v, i);
        }
        proof {
            let after = graph.deep_view();
            assert forall|u: int| 0 <= u < after.len() implies (#[trigger] firsts[u]) < i + 1
                && is_first_for(given, firsts[u], after[u].fen) by {
                if u < before.len() {
                    assert(after[u] == before[u]);
                    assert(firsts[u] == firsts_before[u]);
                } else {
                    assert forall|j: int| 0 <= j < i implies (#[trigger] given[j]).fen
                        != after[u].fen by {
                        assert(has_known_node(before, given[j].fen));
                        let w = choose|w: int|
                            0 <= w < before.len() && (#[trigger] before[w]).known && before[w].fen
                                == given[j].fen;
                        assert(graph[w].fen@ == before[w].fen) by {
                            assert(after[w] == before[w]);
                        }
                    }
                }
            }
            assert forall|a: int, b: int| 0 <= a < b < after.len() implies (#[trigger] firsts[a])
                < (#[trigger] firsts[b]) by {
                if b < before.len() {
                    assert(firsts[a] == firsts_before[a]);
                    assert(firsts[b] == firsts_before[b]);
                } else {
                    assert(firsts[a] == firsts_before[a]);
                    assert(firsts_before[a] < i);
                }
            }
            assert forall|u: int| 0 <= u < after.len() implies (#[trigger] after[u]).known
                && after[u].edges.len() == 0 by {
                if u < before.len() {
                    assert(after[u] == before[u]);
                    assert(before[u].known);
                }
            }
            assert forall|u: int| 0 <= u < after.len() implies (#[trigger] source@[u]) < i + 1
                && given[source@[u] as int].fen == after[u].fen && forall|j: int|
                source@[u] < j < i + 1 ==> (#[trigger] given[j]).fen != after[u].fen by {
                if u != v {
                    assert(after[u] == before[u]);
                    assert(source@[u] == source_before[u]);
                    assert(after[u].fen != after[v as int].fen);
                }
            }
            assert forall|j: int| 0 <= j < i + 1 implies #[trigger] has_known_node(
                after,
                given[j].fen,
            ) by {
                if j < i {
                    assert(has_known_node(before, given[j].fen));
                    let u = choose|u: int|
                        0 <= u < before.len() && (#[trigger] before[u]).known && before[u].fen
                            == given[j].fen;
                    assert(after[u] == before[u]);
                } else {
                    assert(after[v as int].known);
                    assert(after[v as int].fen == given[j].fen);
                }
            }
        }
        i += 1;
    }
    Ok(Known { graph, source, firsts: Ghost(firsts) })
}

/// Whether the graph `graph`, which has grown from `first`, has the moves
/// of its first `done` nodes and of no other.
spec fn holds_moves(
    graph: Seq<GraphNodeView>,
    first: Seq<GraphNodeView>,
    source: Seq<usize>,
    nodes: Seq<NodeChildren>,
    done: int,
) -> bool {
    &&& first.len() <= graph.len()
    &&& distinct_fens(graph)
    &&& well_formed(graph)
    &&& forall|u: int|
        0 <= u < first.len() ==> (#[trigger] graph[u]).known && graph[u].fen == first[u].fen
    &&& forall|u: int|
        first.len() <= u < graph.len() ==> !(#[trigger] graph[u]).known && graph[u].edges.len()
            == 0
    &&& forall|u: int| done <= u < first.len() ==> (#[trigger] graph[u]).edges.len() == 0
    &&& forall|u: int|
        0 <= u < done ==> edges_match(graph, u, nodes[(#[trigger] source[u]) as int].children)
}

/// Growing the graph by a node without moves changes nothing of what it
/// holds.
proof fn lemma_growth_keeps_moves(
    before: Seq<GraphNodeView>,
    after: Seq<GraphNodeView>,
    first: Seq<GraphNodeView>,
    source: Seq<usize>,
    nodes: Seq<NodeChildren>,
    done: int,
)
    requires
        holds_moves(before, first, source, nodes, done),
        grown(before, after),
        distinct_fens(after),
        after.len() > before.len() ==> !after[before.len() as int].known,
        0 <= done <= first.len(),
    ensures
        holds_moves(after, first, source, nodes, done),
{
    assert forall|v: int, j: int|
        0 <= v < after.len() && 0 <= j < after[v].edges.len() implies (#[trigger] after[v].edges[j]).to
        < after.len() by {
        if v < before.len() {
            assert(after[v] == before[v]);
            assert(before[v].edges[j].to < before.len());
        }
    }
    assert forall|u: int| 0 <= u < first.len() implies (#[trigger] after[u]).known && after[u].fen
        == first[u].fen by {
        assert(after[u] == before[u]);
    }
    assert forall|u: int| first.len() <= u < after.len() implies !(#[trigger] after[u]).known
        && after[u].edges.len() == 0 by {
        if u < before.len() {
            assert(after[u] == before[u]);
        }
    }
    assert forall|u: int| done <= u < first.len() implies (#[trigger] after[u]).edges.len()
        == 0 by {
        assert(after[u] == before[u]);
    }
    assert forall|u: int| 0 <= u < done implies edges_match(
        after,
        u,
        nodes[(#[trigger] source[u]) as int].children,
    ) by {
        assert(after[u] == before[u]);
        let children = nodes[source[u] as int].children;
        assert(edges_match(before, u, children));
        assert forall|j: int| 0 <= j < children.len() implies (#[trigger] after[u].edges[j]).uci
            == children[j].uci && after[u].edges[j].to < after.len() && after[after[u].edges[j].to as int].fen
            == children[j].fen by {
            let to = before[u].edges[j].to as int;
            assert(to < before.len());
            assert(after[to] == before[to]);
        }
    }
}

fn link_nodes(known: Known, nodes: &Vec<SplitNodeInput>, root_fen: &str) -> (out: (
    MoveGraph,
    usize,
))
    requires
        holds_nodes(
            known.graph.deep_view(),
            known.source@,
            nodes.deep_view(),
            nodes.len() as int,
        ),
        holds_firsts(
            known.graph.deep_view(),
            known.firsts@,
            nodes.deep_view(),
            nodes.len() as int,
        ),
    ensures
        represents(out.0@, out.1 as int, root_fen@, nodes.deep_view()),
{
    let ghost given = nodes.deep_view();
    let ghost first = known.graph.deep_view();
    let ghost firsts = known.firsts@;
    let mut graph = known.graph;
    let source = known.source;
    let t = graph.len();
    let mut v: usize = 0;
    proof {
        assert(holds_moves(first, first, source@, given, 0));
    }
    while v < t
        invariant
            v <= t,
            t == first.len(),
            given == nodes.deep_view(),
            holds_nodes(first, source@, given, nodes.len() as int),
            holds_moves(graph.deep_view(), first, source@, given, v as int),
        decreases t - v,
    {
        let at = source[v];
        assert(at < nodes.len());
        assert(given[at as int] == nodes[at as int].deep_view());
        let children = &nodes[at].children;
        let ghost wanted = given[at as int].children;
        let mut edges: Vec<Edge> = Vec::new();
        let mut j: usize = 0;
        while j < children.len()
            invariant
                j <= children.len(),
                v < t,
                t == first.len(),
                wanted == children.deep_view(),
                holds_moves(graph.deep_view(), first, source@, given, v as int),
                edges.len() == j,
                forall|k: int|
                    0 <= k < j ==> (#[trigger] edges[k]).uci@ == wanted[k].uci && edges[k].to
                        < graph.len() && graph[edges[k].to as int].fen@ == wanted[k].fen,
            decreases children.len() - j,
        {
            assert(wanted[j as int] == children[j as int].deep_view());
            let ghost before = graph.deep_view();
            let ghost edges_before = edges@;
            let to = intern(&mut graph, children[j].fen.as_str(), false);
            proof {
                lemma_growth_keeps_moves(before, graph.deep_view(), first, source@, given, v as int);
            }
            edges.push(Edge { uci: children[j].uci.clone(), to });
            proof {
                assert forall|k: int| 0 <= k < j + 1 implies (#[trigger] edges[k]).uci@
                    == wanted[k].uci && edges[k].to < graph.len() && graph[edges[k].to as int].fen@
                    == wanted[k].fen by {
                    if k < j {
                        assert(edges[k] == edges_before[k]);
                        let old_to = edges_before[k].to as int;
                        assert(graph.deep_view()[old_to] == before[old_to]);
                    }
                }
            }
            j += 1;
        }
        let ghost before = graph.deep_view();
        let fen = graph[v].fen.clone();
        graph.set(v, GraphNode { fen, known: true, edges });
        proof {
            let after = graph.deep_view();
            assert(before[v as int].fen == first[v as int].fen);
            assert forall|u: int| 0 <= u < after.len() implies (#[trigger] after[u]).fen
                == before[u].fen && after[u].known == before[u].known by {
                if u != v {
                    assert(after[u] == before[u]);
                }
            }
            assert forall|a: int, b: int|
                0 <= a < after.len() && 0 <= b < after.len() && a != b implies (
            #[trigger] after[a]).fen != (#[trigger] after[b]).fen by {
                assert(before[a].fen != before[b].fen);
            }
            assert(edges_match(after, v as int, wanted)) by {
                assert forall|k: int| 0 <= k < wanted.len() implies (
                #[trigger] after[v as int].edges[k]).uci == wanted[k].uci && after[v as int].edges[k].to
                    < after.len() && after[after[v as int].edges[k].to as int].fen
                    == wanted[k].fen by {
                    assert(after[v as int].edges[k] == edges[k].deep_view());
                    let to = edges[k].to as int;
                    assert(after[to].fen == before[to].fen);
                }
            }
            assert forall|u: int| 0 <= u < v + 1 implies edges_match(
                after,
                u,
                given[(#[trigger] source@[u]) as int].children,
            ) by {
                if u < v {
                    let kids = given[source@[u] as int].children;
                    assert(after[u] == before[u]);
                    assert(edges_match(before, u, kids));
                    assert forall|k: int| 0 <= k < kids.len() implies (
                    #[trigger] after[u].edges[k]).uci == kids[k].uci && after[u].edges[k].to
                        < after.len() && after[after[u].edges[k].to as int].fen == kids[k].fen by {
                        let to = before[u].edges[k].to as int;
                        assert(after[to].fen == before[to].fen);
                    }
                }
            }
            assert forall|u: int, k: int|
                0 <= u < after.len() && 0 <= k < after[u].edges.len() implies (
            #[trigger] after[u].edges[k]).to < after.len() by {
                if u != v {
                    assert(after[u] == before[u]);
                    assert(before[u].edges[k].to < before.len());
                } else {
                    assert(after[u].edges[k] == edges[k].deep_view());
                }
            }
            assert forall|u: int| first.len() <= u < after.len() implies !(#[trigger] after[u]).known
                && after[u].edges.len() == 0 by {
                assert(after[u] == before[u]);
            }
            assert forall|u: int| v + 1 <= u < first.len() implies (#[trigger] after[u]).edges.len()
                == 0 by {
                assert(after[u] == before[u]);
            }
            assert forall|u: int| 0 <= u < first.len() implies (#[trigger] after[u]).known
                && after[u].fen == first[u].fen by {
                assert(before[u].known);
            }
        }
        v += 1;
    }
    let ghost before = graph.deep_view();
    let root = intern(&mut graph, root_fen, false);
    proof {
        let after = graph.deep_view();
        lemma_growth_keeps_moves(before, after, first, source@, given, t as int);
        assert forall|i: int| 0 <= i < given.len() implies #[trigger] has_known_node(
            after,
            given[i].fen,
        ) by {
            assert(has_known_node(first, given[i].fen));
            let u = choose|u: int|
                0 <= u < first.len() && (#[trigger] first[u]).known && first[u].fen
                    == given[i].fen;
            assert(after[u].known && after[u].fen == first[u].fen);
        }
        assert forall|u: int| 0 <= u < after.len() && (#[trigger] after[u]).known implies has_moves_of(
            after,
            u,
            given,
        ) by {
            assert(u < first.len());
            let i = source@[u] as int;
            assert(after[u].fen == first[u].fen);
            assert(is_last_for(given, i, after[u].fen));
            assert(edges_match(after, u, given[i].children));
        }
        assert forall|u: int| 0 <= u < after.len() && !(#[trigger] after[u]).known implies after[u].edges.len()
            == 0 by {
            if u < first.len() {
                assert(after[u].known);
            }
        }
        assert forall|a: int, b: int|
            0 <= a < b < after.len() && (#[trigger] after[b]).known implies (#[trigger] after[a]).known by {
            assert(b < first.len());
        }
        assert forall|a: int, b: int, i: int, j: int|
            0 <= a < b < after.len() && after[b].known && #[trigger] is_first_for(
                given,
                i,
                after[a].fen,
            ) && #[trigger] is_first_for(given, j, after[b].fen) implies i < j by {
            assert(b < first.len());
            assert(after[a].fen == first[a].fen);
            assert(after[b].fen == first[b].fen);
            assert(is_first_for(given, firsts[a], first[a].fen));
            assert(is_first_for(given, firsts[b], first[b].fen));
            // The first node given for a position is one node.
            if i < firsts[a] {
                assert(given[i].fen != first[a].fen);
            }
            if firsts[a] < i {
                assert(given[firsts[a]].fen != after[a].fen);
            }
            if j < firsts[b] {
                assert(given[j].fen != first[b].fen);
            }
            if firsts[b] < j {
                assert(given[firsts[b]].fen != after[b].fen);
            }
        }
    }
    (MoveGraph { nodes: graph }, root)
}

/// The view of parts or an error.
pub open spec fn events_or_failure(out: Result<Vec<SplitEventPayload>, ChessError>) -> Result<
    Seq<EventView>,
    ChessFailure,
> {
    match out {
        Ok(events) => Ok(events.deep_view()),
        Err(e) => Err(e@),
    }
}

/// The bound on the size of a part that is worked with: the bound given,
/// but at least one.
pub open spec fn bound_of(max_moves: u64) -> u64 {
    if max_moves < 1 {
        1
    } else {
        max_moves
    }
}

/// The parts of `graph` from node `root` on, with parts of at most
/// `max_moves` moves where a node can be split.
pub open spec fn parts_of(graph: Seq<GraphNodeView>, root: int, max_moves: u64) -> Result<
    Seq<EventView>,
    ChessFailure,
> {
    split_from(graph, move_counts(graph), bound_of(max_moves), root, seq![root], Seq::empty())
}

fn split_graph(graph: &Vec<GraphNode>, root: usize, max_moves: u64) -> (out: Result<
    Vec<SplitEventPayload>,
    ChessError,
>)
    requires
        well_formed(graph.deep_view()),
        root < graph.len(),
    ensures
        events_or_failure(out) == parts_of(graph.deep_view(), root as int, max_moves),
{
    let max_moves = if max_moves < 1 {
        1
    } else {
        max_moves
    };
    let counts = compute_move_counts(graph);
    let mut on_path: Vec<bool> = Vec::new();
    let mut k: usize = 0;
    while k < graph.len()
        invariant
            k <= graph.len(),
            root < graph.len(),
            on_path.len() == k,
            forall|j: int| 0 <= j < k ==> (#[trigger] on_path[j] <==> j == root),
        decreases graph.len() - k,
    {
        on_path.push(k == root);
        k += 1;
    }
    let ghost path = seq![root as int];
    proof {
        assert(path[0] == root);
        assert forall|j: int| 0 <= j < on_path.len() implies (#[trigger] on_path@[j]
            <==> path.contains(j)) by {
            if path.contains(j) {
                let at = choose|at: int| 0 <= at < path.len() && path[at] == j;
                assert(j == root);
            }
        }
    }
    let mut prefix: Vec<String> = Vec::new();
    let mut events: Vec<SplitEventPayload> = Vec::new();
    assert(prefix.deep_view() =~= Seq::<Seq<char>>::empty());
    assert(events.deep_view() =~= Seq::<EventView>::empty());
    match split_node(
        graph,
        &counts,
        max_moves,
        root,
        &mut on_path,
        &mut prefix,
        &mut events,
        Ghost(path),
    ) {
        Ok(_) => {
            proof {
                let found = parts_of(graph.deep_view(), root as int, max_moves)->Ok_0;
                assert(Seq::<EventView>::empty() + found =~= found);
            }
            Ok(events)
        },
        Err(e) => Err(e),
    }
}

/// A graph of positions and moves in which every move leads to a node of
/// the graph.
#[derive(Debug)]
pub struct MoveGraph {
    nodes: Vec<GraphNode>,
}

impl View for MoveGraph {
    type V = Seq<GraphNodeView>;

    closed spec fn view(&self) -> Seq<GraphNodeView> {
        self.nodes.deep_view()
    }
}

impl MoveGraph {
    #[verifier::type_invariant]
    spec fn inv(self) -> bool {
        well_formed(self.nodes.deep_view())
    }

    /// The graph of `nodes`, unless one of their moves leads to no node.
    pub fn new(nodes: Vec<GraphNode>) -> (out: Option<MoveGraph>)
        ensures
            well_formed(nodes.deep_view()) ==> (out matches Some(graph) && graph@
                == nodes.deep_view()),
            !well_formed(nodes.deep_view()) ==> out is None,
    {
        let ghost g = nodes.deep_view();
        let n = nodes.len();
        let mut v: usize = 0;
        while v < n
            invariant
                v <= n,
                n == nodes.len(),
                g == nodes.deep_view(),
                forall|u: int, j: int|
                    0 <= u < v && 0 <= j < g[u].edges.len() ==> (#[trigger] g[u].edges[j]).to < n,
            decreases n - v,
        {
            assert(g[v as int] == nodes[v as int].deep_view());
            let edges = &nodes[v].edges;
            let mut j: usize = 0;
            while j < edges.len()
                invariant
                    j <= edges.len(),
                    v < n,
                    n == g.len(),
                    g == nodes.deep_view(),
                    edges.deep_view() == g[v as int].edges,
                    forall|k: int| 0 <= k < j ==> (#[trigger] g[v as int].edges[k]).to < n,
                decreases edges.len() - j,
            {
                assert(g[v as int].edges[j as int] == edges[j as int].deep_view());
                if edges[j].to >= n {
                    assert(!(g[v as int].edges[j as int].to < g.len()));
                    return None;
                }
                j += 1;
            }
            v += 1;
        }
        Some(MoveGraph { nodes })
    }

    /// The nodes of the graph.
    pub fn nodes(&self) -> (out: &Vec<GraphNode>)
        ensures
            out.deep_view() == self@,
            well_formed(self@),
    {
        proof {
            use_type_invariant(self);
        }
        &self.nodes
    }

    /// Counts the moves that can be reached from every node.
    pub fn compute_move_counts(&self) -> (out: Vec<u64>)
        ensures
            out@ == move_counts(self@),
    {
        proof {
            use_type_invariant(self);
        }
        compute_move_counts(&self.nodes)
    }

    /// Splits the graph into parts from node `root` on. A root that is no
    /// node of the graph has no parts.
    pub fn split(&self, root: usize, max_moves: u64) -> (out: Result<
        Vec<SplitEventPayload>,
        ChessError,
    >)
        ensures
            events_or_failure(out) == parts_of(self@, root as int, max_moves),
    {
        proof {
            use_type_invariant(self);
        }
        if root >= self.nodes.len() {
            let events: Vec<SplitEventPayload> = Vec::new();
            assert(events.deep_view() =~= Seq::<EventView>::empty());
            return Ok(events);
        }
        split_graph(&self.nodes, root, max_moves)
    }
}

/// Splits the repertoire that `nodes` describe into parts of at most
/// `max_moves` moves, from the position `root_fen` on.
///
/// Every node must name its position by a FEN; the first that does not is
/// refused. Else the nodes are taken as a graph, and the parts are those of
/// that graph.
pub fn split_repertoire_nodes(root_fen: String, nodes: Vec<SplitNodeInput>, max_moves: u64) -> (out:
    Result<Vec<SplitEventPayload>, ChessError>)
    ensures
        all_fens(nodes.deep_view(), nodes.len() as int) ==> exists|
            graph: Seq<GraphNodeView>,
            root: int,
        |
            represents(graph, root, root_fen@, nodes.deep_view()) && events_or_failure(out)
                == #[trigger] parts_of(graph, root, max_moves),
        !all_fens(nodes.deep_view(), nodes.len() as int) ==> (out matches Err(e) && exists|i: int|
            first_bad_node(nodes.deep_view(), i, e@)),
{
    let known = match take_nodes(&nodes) {
        Ok(known) => known,
        Err(e) => {
            proof {
                let i = choose|i: int| first_bad_node(nodes.deep_view(), i, e@);
                assert(position_reading(nodes.deep_view()[i].fen) matches Err(FenFailure::Syntax(_)));
            }
            return Err(e);
        },
    };
    let (graph, root) = link_nodes(known, &nodes, root_fen.as_str());
    let out = graph.split(root, max_moves);
    proof {
        assert(represents(graph@, root as int, root_fen@, nodes.deep_view()) && events_or_failure(
            out,
        ) == parts_of(graph@, root as int, max_moves));
    }
    out
}

} // verus!
