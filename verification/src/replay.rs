//! What a run of `info` lines leaves behind.
//!
//! The state after a run depends on little of it: the last depth and the last
//! node count that any line names, and for each rank the last line that gives
//! moves for it. The laws here say so, and that taking a run in a second time
//! changes nothing.

use crate::parser::apply;
use crate::parser::lists_by_rank;
use crate::parser::report_of;
use crate::parser::ParserState;
use crate::parser::PvLine;
use vstd::prelude::*;

verus! {

/// The state after the lines `lines`, taken in order from `state`.
pub open spec fn feed(state: ParserState, lines: Seq<Seq<char>>) -> ParserState
    decreases lines.len(),
{
    if lines.len() == 0 {
        state
    } else {
        apply(feed(state, lines.drop_last()), report_of(lines.last()))
    }
}

/// What a run of lines settles, whatever the state before it.
pub struct Digest {
    /// The last depth named, if any line names one.
    pub depth: Option<u32>,
    /// The last node count named, if any line names one.
    pub nodes: Option<u64>,
    /// For each rank that some line gives moves for, the last such line.
    pub lines: Map<u32, PvLine>,
}

/// What the run `lines` settles.
pub open spec fn digest(lines: Seq<Seq<char>>) -> Digest
    decreases lines.len(),
{
    if lines.len() == 0 {
        Digest { depth: None, nodes: None, lines: Map::empty() }
    } else {
        let earlier = digest(lines.drop_last());
        let report = report_of(lines.last());
        Digest {
            depth: if report.depth is Some {
                report.depth
            } else {
                earlier.depth
            },
            nodes: if report.nodes is Some {
                report.nodes
            } else {
                earlier.nodes
            },
            lines: if report.bears_line() {
                earlier.lines.insert(report.rank, report.line())
            } else {
                earlier.lines
            },
        }
    }
}

/// The state `state` with what `settled` settles put in place of its own.
pub open spec fn settle(state: ParserState, settled: Digest) -> ParserState {
    ParserState {
        depth: match settled.depth {
            Some(depth) => depth,
            None => state.depth,
        },
        nodes: match settled.nodes {
            Some(nodes) => nodes,
            None => state.nodes,
        },
        lines: state.lines.union_prefer_right(settled.lines),
    }
}

/// The state after a run is the state before it, with what the run settles
/// put in place: nothing else of the run matters.
pub proof fn lemma_feed_settles(state: ParserState, lines: Seq<Seq<char>>)
    ensures
        feed(state, lines) == settle(state, digest(lines)),
    decreases lines.len(),
{
    if lines.len() == 0 {
        assert(state.lines.union_prefer_right(Map::empty()) =~= state.lines);
    } else {
        lemma_feed_settles(state, lines.drop_last());
        let earlier = digest(lines.drop_last());
        let report = report_of(lines.last());
        if report.bears_line() {
            assert(state.lines.union_prefer_right(earlier.lines).insert(
                report.rank,
                report.line(),
            ) =~= state.lines.union_prefer_right(
                earlier.lines.insert(report.rank, report.line()),
            ));
        }
    }
}

/// Taking the same run in twice leaves the state that taking it in once
/// leaves.
pub proof fn lemma_replay_changes_nothing(state: ParserState, lines: Seq<Seq<char>>)
    ensures
        feed(feed(state, lines), lines) == feed(state, lines),
{
    let settled = digest(lines);
    lemma_feed_settles(state, lines);
    lemma_feed_settles(feed(state, lines), lines);
    assert(state.lines.union_prefer_right(settled.lines).union_prefer_right(settled.lines)
        =~= state.lines.union_prefer_right(settled.lines));
}

/// The last line that gives moves for a rank decides the entry of that rank.
pub proof fn lemma_last_line_wins(state: ParserState, lines: Seq<Seq<char>>, k: int)
    requires
        0 <= k < lines.len(),
        report_of(lines[k]).bears_line(),
        forall|j: int|
            k < j < lines.len() ==> !(report_of(#[trigger] lines[j]).bears_line() && report_of(
                lines[j],
            ).rank == report_of(lines[k]).rank),
    ensures
        feed(state, lines).lines.contains_key(report_of(lines[k]).rank),
        feed(state, lines).lines[report_of(lines[k]).rank] == report_of(lines[k]).line(),
    decreases lines.len(),
{
    if k < lines.len() - 1 {
        let shorter = lines.drop_last();
        assert(shorter[k] == lines[k]);
        assert forall|j: int| k < j < shorter.len() implies !(report_of(
            #[trigger] shorter[j],
        ).bears_line() && report_of(shorter[j]).rank == report_of(shorter[k]).rank) by {
            assert(shorter[j] == lines[j]);
        }
        lemma_last_line_wins(state, shorter, k);
        assert(lines.last() == lines[lines.len() - 1]);
    }
}

/// A rank that no line of the run gives moves for keeps the entry it had, or
/// stays without one.
pub proof fn lemma_other_ranks_keep(state: ParserState, lines: Seq<Seq<char>>, rank: u32)
    requires
        forall|j: int|
            0 <= j < lines.len() ==> !(report_of(#[trigger] lines[j]).bears_line() && report_of(
                lines[j],
            ).rank == rank),
    ensures
        feed(state, lines).lines.contains_key(rank) == state.lines.contains_key(rank),
        state.lines.contains_key(rank) ==> feed(state, lines).lines[rank] == state.lines[rank],
    decreases lines.len(),
{
    if lines.len() > 0 {
        let shorter = lines.drop_last();
        assert forall|j: int| 0 <= j < shorter.len() implies !(report_of(
            #[trigger] shorter[j],
        ).bears_line() && report_of(shorter[j]).rank == rank) by {
            assert(shorter[j] == lines[j]);
        }
        lemma_other_ranks_keep(state, shorter, rank);
        assert(lines.last() == lines[lines.len() - 1]);
    }
}

/// The last line that names a depth decides the depth.
pub proof fn lemma_last_depth_wins(state: ParserState, lines: Seq<Seq<char>>, k: int)
    requires
        0 <= k < lines.len(),
        report_of(lines[k]).depth is Some,
        forall|j: int| k < j < lines.len() ==> report_of(#[trigger] lines[j]).depth is None,
    ensures
        Some(feed(state, lines).depth) == report_of(lines[k]).depth,
    decreases lines.len(),
{
    if k < lines.len() - 1 {
        let shorter = lines.drop_last();
        assert(shorter[k] == lines[k]);
        assert forall|j: int| k < j < shorter.len() implies report_of(
            #[trigger] shorter[j],
        ).depth is None by {
            assert(shorter[j] == lines[j]);
        }
        lemma_last_depth_wins(state, shorter, k);
        assert(lines.last() == lines[lines.len() - 1]);
    }
}

/// The last line that names a node count decides the node count.
pub proof fn lemma_last_nodes_win(state: ParserState, lines: Seq<Seq<char>>, k: int)
    requires
        0 <= k < lines.len(),
        report_of(lines[k]).nodes is Some,
        forall|j: int| k < j < lines.len() ==> report_of(#[trigger] lines[j]).nodes is None,
    ensures
        Some(feed(state, lines).nodes) == report_of(lines[k]).nodes,
    decreases lines.len(),
{
    if k < lines.len() - 1 {
        let shorter = lines.drop_last();
        assert(shorter[k] == lines[k]);
        assert forall|j: int| k < j < shorter.len() implies report_of(
            #[trigger] shorter[j],
        ).nodes is None by {
            assert(shorter[j] == lines[j]);
        }
        lemma_last_nodes_win(state, shorter, k);
        assert(lines.last() == lines[lines.len() - 1]);
    }
}

/// No run of lines leaves a rank with both kinds of score.
pub proof fn lemma_feed_exclusive(state: ParserState, lines: Seq<Seq<char>>)
    requires
        state.exclusive(),
    ensures
        feed(state, lines).exclusive(),
    decreases lines.len(),
{
    if lines.len() > 0 {
        lemma_feed_exclusive(state, lines.drop_last());
        crate::parser::lemma_report_exclusive(lines.last());
        let earlier = feed(state, lines.drop_last());
        let after = feed(state, lines);
        assert forall|r: u32| after.lines.contains_key(r) implies (#[trigger] after.lines[r]).exclusive() by {
            if !(report_of(lines.last()).bears_line() && r == report_of(lines.last()).rank) {
                assert(earlier.lines.contains_key(r));
                assert(earlier.lines[r].exclusive());
            }
        }
    }
}

/// A map of entries has one listing by ascending rank, and no other.
pub proof fn lemma_listing_unique(a: Seq<PvLine>, b: Seq<PvLine>, lines: Map<u32, PvLine>)
    requires
        lists_by_rank(a, lines),
        lists_by_rank(b, lines),
    ensures
        a == b,
    decreases a.len(),
{
    if a.len() == 0 {
        if b.len() > 0 {
            assert(lines.contains_key(b[0].rank));
        }
        assert(a =~= b);
    } else {
        let top = a.last().rank;
        assert(lines.contains_key(a[a.len() - 1].rank));
        let j = choose|j: int| 0 <= j < b.len() && (#[trigger] b[j]).rank == top;
        assert(b[j].rank <= b[b.len() - 1].rank);
        assert(lines.contains_key(b[b.len() - 1].rank));
        let i = choose|i: int| 0 <= i < a.len() && (#[trigger] a[i]).rank == b.last().rank;
        assert(a[i].rank <= a[a.len() - 1].rank);
        assert(b.last().rank == top);
        let rest = lines.remove(top);
        lemma_listing_without_top(a, lines);
        lemma_listing_without_top(b, lines);
        lemma_listing_unique(a.drop_last(), b.drop_last(), rest);
        assert(a =~= a.drop_last().push(a.last()));
        assert(b =~= b.drop_last().push(b.last()));
    }
}

proof fn lemma_listing_without_top(a: Seq<PvLine>, lines: Map<u32, PvLine>)
    requires
        lists_by_rank(a, lines),
        a.len() > 0,
    ensures
        lists_by_rank(a.drop_last(), lines.remove(a.last().rank)),
{
    let top = a.last().rank;
    let shorter = a.drop_last();
    let rest = lines.remove(top);
    assert forall|i: int| 0 <= i < shorter.len() implies rest.contains_key(
        (#[trigger] shorter[i]).rank,
    ) && rest[shorter[i].rank] == shorter[i] by {
        assert(shorter[i] == a[i]);
        assert(a[i].rank < a[a.len() - 1].rank);
    }
    assert forall|r: u32| #[trigger] rest.contains_key(r) implies exists|i: int|
        0 <= i < shorter.len() && (#[trigger] shorter[i]).rank == r by {
        assert(lines.contains_key(r));
        let i = choose|i: int| 0 <= i < a.len() && (#[trigger] a[i]).rank == r;
        assert(shorter[i].rank == r);
    }
    assert forall|i: int, j: int| 0 <= i < j < shorter.len() implies (#[trigger] shorter[i]).rank
        < (#[trigger] shorter[j]).rank by {
        assert(shorter[i] == a[i]);
        assert(shorter[j] == a[j]);
    }
}

} // verus!
