use rep_grow::parser::read_info;
use rep_grow::parser::InfoParser;

fn moves(entry: &rep_grow::parser::PvEntry) -> String {
    entry.moves_text()
}

#[test]
fn parser_collects_multiple_pvs() {
    let mut parser = InfoParser::new();
    parser.consume("info depth 10 nodes 100000 multipv 1 score cp 50 pv e2e4 e7e5");
    parser.consume("info depth 10 nodes 100000 multipv 2 score cp 30 pv d2d4 d7d5");
    let payload = parser.into_payload("fen");
    assert_eq!(payload.pvs.len(), 2);
    assert_eq!(payload.depth, 10);
    assert_eq!(payload.knodes, 100);
}

#[test]
fn two_ranks_come_out_in_order_with_their_scores_and_moves() {
    let mut parser = InfoParser::new();
    parser.consume("info depth 10 nodes 100000 multipv 1 score cp 50 pv e2e4 e7e5");
    parser.consume("info depth 10 nodes 100000 multipv 2 score cp 30 pv d2d4 d7d5");
    let payload = parser.into_payload("startpos");
    assert_eq!(payload.fen, "startpos");
    assert_eq!(payload.depth, 10);
    assert_eq!(payload.knodes, 100);
    assert_eq!(payload.pvs.len(), 2);
    assert_eq!(payload.pvs[0].rank, 1);
    assert_eq!(payload.pvs[0].cp, Some(50));
    assert_eq!(payload.pvs[0].mate, None);
    assert_eq!(moves(&payload.pvs[0]), "e2e4 e7e5");
    assert_eq!(payload.pvs[1].rank, 2);
    assert_eq!(payload.pvs[1].cp, Some(30));
    assert_eq!(payload.pvs[1].mate, None);
    assert_eq!(moves(&payload.pvs[1]), "d2d4 d7d5");
}

#[test]
fn ranks_are_sorted_whatever_order_they_arrive_in() {
    let mut parser = InfoParser::new();
    parser.consume("info multipv 3 score cp 1 pv a2a3");
    parser.consume("info multipv 1 score cp 3 pv c2c3");
    parser.consume("info multipv 2 score cp 2 pv b2b3");
    let payload = parser.into_payload("x");
    let ranks: Vec<u32> = payload.pvs.iter().map(|e| e.rank).collect();
    assert_eq!(ranks, vec![1, 2, 3]);
    assert_eq!(payload.pvs[0].moves, vec!["c2c3".to_string()]);
    assert_eq!(payload.pvs[2].moves, vec!["a2a3".to_string()]);
}

#[test]
fn nodes_are_given_in_thousands_rounded_down() {
    let mut parser = InfoParser::new();
    parser.consume("info nodes 1999");
    assert_eq!(parser.into_payload("x").knodes, 1);
    let mut parser = InfoParser::new();
    parser.consume("info nodes 2000");
    assert_eq!(parser.into_payload("x").knodes, 2);
    let mut parser = InfoParser::new();
    parser.consume("info nodes 999");
    assert_eq!(parser.into_payload("x").knodes, 0);
}

#[test]
fn a_fresh_parser_ends_with_nothing() {
    let payload = InfoParser::new().into_payload("8/8/8/8/8/8/8/8 w - - 0 1");
    assert_eq!(payload.fen, "8/8/8/8/8/8/8/8 w - - 0 1");
    assert_eq!(payload.depth, 0);
    assert_eq!(payload.knodes, 0);
    assert!(payload.pvs.is_empty());
}

#[test]
fn later_line_of_a_rank_replaces_the_earlier_one() {
    let mut parser = InfoParser::new();
    parser.consume("info depth 5 multipv 1 score cp 10 pv e2e4 e7e5 g1f3");
    parser.consume("info depth 6 multipv 1 score mate 3 pv d2d4");
    let payload = parser.into_payload("x");
    assert_eq!(payload.depth, 6);
    assert_eq!(payload.pvs.len(), 1);
    assert_eq!(payload.pvs[0].cp, None);
    assert_eq!(payload.pvs[0].mate, Some(3));
    assert_eq!(payload.pvs[0].moves, vec!["d2d4".to_string()]);
}

#[test]
fn depth_and_nodes_are_the_last_ones_named() {
    let mut parser = InfoParser::new();
    parser.consume("info depth 12 nodes 5000");
    parser.consume("info depth 9 nodes 3000");
    parser.consume("info currmove e2e4");
    let payload = parser.into_payload("x");
    assert_eq!(payload.depth, 9);
    assert_eq!(payload.knodes, 3);
}

#[test]
fn either_score_clears_the_other() {
    let line = read_info("info score cp 20 score mate 2 pv e2e4");
    assert_eq!(line.cp, None);
    assert_eq!(line.mate, Some(2));
    let line = read_info("info score mate -4 score cp -35 pv e2e4");
    assert_eq!(line.cp, Some(-35));
    assert_eq!(line.mate, None);
}

#[test]
fn a_score_that_cannot_be_read_leaves_the_line_without_score() {
    let line = read_info("info score cp 20 score mate soon pv e2e4");
    assert_eq!(line.cp, None);
    assert_eq!(line.mate, None);
    let line = read_info("info score cp 20 score cp");
    assert_eq!(line.cp, None);
    assert_eq!(line.mate, None);
    let line = read_info("info score cp 20 score lowerbound pv e2e4");
    assert_eq!(line.cp, Some(20));
    assert_eq!(line.moves, vec!["e2e4".to_string()]);
}

#[test]
fn no_entry_ever_has_both_scores() {
    let lines = [
        "info multipv 1 score cp 5 pv a2a3",
        "info multipv 1 score mate 1 pv a2a4",
        "info multipv 2 score mate 2 score cp 7 pv b2b3",
        "info multipv 3 score cp 1 score mate 9 pv c2c3",
        "info multipv 4 pv d2d3",
    ];
    let mut parser = InfoParser::new();
    for line in lines {
        parser.consume(line);
    }
    let payload = parser.into_payload("x");
    assert_eq!(payload.pvs.len(), 4);
    for entry in &payload.pvs {
        assert!(!(entry.cp.is_some() && entry.mate.is_some()));
    }
    assert_eq!(payload.pvs[0].mate, Some(1));
    assert_eq!(payload.pvs[1].cp, Some(7));
    assert_eq!(payload.pvs[2].mate, Some(9));
    assert_eq!(payload.pvs[3].score(), None);
}

#[test]
fn empty_move_list_makes_no_entry_and_keeps_the_old_one() {
    let mut parser = InfoParser::new();
    parser.consume("info multipv 1 score cp 10 pv e2e4");
    parser.consume("info depth 7 multipv 1 score cp 99 pv");
    parser.consume("info multipv 2 score cp 1 pv   ");
    let payload = parser.into_payload("x");
    assert_eq!(payload.depth, 7);
    assert_eq!(payload.pvs.len(), 1);
    assert_eq!(payload.pvs[0].cp, Some(10));
}

#[test]
fn rank_defaults_to_one_and_is_at_least_one() {
    let line = read_info("info score cp 1 pv e2e4");
    assert_eq!(line.rank, 1);
    let line = read_info("info multipv 0 score cp 1 pv e2e4");
    assert_eq!(line.rank, 1);
    let line = read_info("info multipv 7 multipv x pv e2e4");
    assert_eq!(line.rank, 7);
    let line = read_info("info multipv 4294967295 pv e2e4");
    assert_eq!(line.rank, u32::MAX);
    let line = read_info("info multipv 4294967296 pv e2e4");
    assert_eq!(line.rank, 1);
}

#[test]
fn everything_after_pv_is_a_move() {
    let line = read_info("info pv e2e4 depth 30 nodes 7 score cp 1");
    assert_eq!(line.depth, None);
    assert_eq!(line.nodes, None);
    assert_eq!(line.cp, None);
    assert_eq!(line.moves, vec!["e2e4", "depth", "30", "nodes", "7", "score", "cp", "1"]);
}

#[test]
fn a_keyword_takes_the_field_after_it_even_if_unreadable() {
    // `depth` swallows `nodes`, so `50` stands alone and no count is read.
    let line = read_info("info depth nodes 50 multipv 2");
    assert_eq!(line.depth, None);
    assert_eq!(line.nodes, None);
    assert_eq!(line.rank, 2);
    let line = read_info("info depth -3 nodes +17");
    assert_eq!(line.depth, None);
    assert_eq!(line.nodes, Some(17));
    let line = read_info("info depth");
    assert_eq!(line.depth, None);
}

#[test]
fn unknown_fields_and_odd_spacing_are_passed_over() {
    let line = read_info("  info\tseldepth 9  depth 4 \u{a0} hashfull 12 nodes 8000 nps 9 tbhits 0 time 3 score cp -12 pv g1f3\r\n");
    assert_eq!(line.depth, Some(4));
    assert_eq!(line.nodes, Some(8000));
    assert_eq!(line.cp, Some(-12));
    assert_eq!(line.moves, vec!["g1f3".to_string()]);
}

#[test]
fn order_of_unrelated_fields_does_not_matter() {
    let a = read_info("info depth 10 nodes 100000 multipv 2 score cp 30 pv d2d4 d7d5");
    let b = read_info("info score cp 30 multipv 2 nodes 100000 depth 10 pv d2d4 d7d5");
    assert_eq!(a.depth, b.depth);
    assert_eq!(a.nodes, b.nodes);
    assert_eq!(a.rank, b.rank);
    assert_eq!(a.cp, b.cp);
    assert_eq!(a.mate, b.mate);
    assert_eq!(a.moves, b.moves);
    assert_eq!(a.depth, Some(10));
    assert_eq!(a.rank, 2);
}

#[test]
fn replaying_the_lines_changes_nothing() {
    let lines = [
        "info depth 3 nodes 1500 multipv 2 score cp -8 pv b1c3",
        "info depth 4 nodes 42999 multipv 1 score mate 5 pv e2e4 e7e5",
        "info nodes 43000",
        "info multipv 2 score cp 12 pv g1f3 g8f6",
        "info string pv-less line",
    ];
    let mut once = InfoParser::new();
    for line in lines {
        once.consume(line);
    }
    let mut twice = InfoParser::new();
    for _ in 0..2 {
        for line in lines {
            twice.consume(line);
        }
    }
    let once = once.into_payload("x");
    let twice = twice.into_payload("x");
    assert_eq!(once.depth, 4);
    assert_eq!(once.knodes, 43);
    assert_eq!(twice.depth, once.depth);
    assert_eq!(twice.knodes, once.knodes);
    assert_eq!(twice.pvs.len(), once.pvs.len());
    for (a, b) in once.pvs.iter().zip(twice.pvs.iter()) {
        assert_eq!(a.rank, b.rank);
        assert_eq!(a.cp, b.cp);
        assert_eq!(a.mate, b.mate);
        assert_eq!(a.moves, b.moves);
    }
    assert_eq!(once.pvs[0].mate, Some(5));
    assert_eq!(once.pvs[1].cp, Some(12));
    assert_eq!(once.pvs[1].moves_text(), "g1f3 g8f6");
}

#[test]
fn score_is_centipawns_else_mate() {
    let mut parser = InfoParser::new();
    parser.consume("info multipv 1 score cp -15 pv a2a3");
    parser.consume("info multipv 2 score mate 4 pv b2b3");
    let payload = parser.into_payload("x");
    assert_eq!(payload.pvs[0].score(), Some(-15));
    assert_eq!(payload.pvs[1].score(), Some(4));
}
