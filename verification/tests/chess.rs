use rep_grow::analysis::{player_move_analysis, read_entry, NodeInput};
use rep_grow::chess::{role_symbol, square_name, Role, Square};
use rep_grow::fen::{
    canonicalize_fen, canonicalize_fen_str, player_turn_mask, reset_move_counters, ChessError, Task,
};
use shakmaty::fen::Fen;
use shakmaty::uci::UciMove;
use shakmaty::{CastlingMode, Chess, EnPassantMode, Position};
use std::collections::HashMap;
use std::str::FromStr;

const START_FEN: &str = "rnbqkbnr/pppppppp/8/8/8/8/PPPPPPPP/RNBQKBNR w KQkq - 0 1";

fn node(fen: &str, moves: &[&str]) -> NodeInput {
    NodeInput {
        fen: fen.to_string(),
        moves: moves.iter().map(|m| m.to_string()).collect(),
    }
}

fn next_fen(start_fen: &str, moves: &[&str]) -> String {
    let fen = Fen::from_str(start_fen).unwrap();
    let mut position: Chess = fen.into_position(CastlingMode::Standard).unwrap();
    for mv in moves {
        let uci = UciMove::from_str(mv).unwrap();
        let chess_move = uci.to_move(&position).unwrap_or_else(|_| {
            let current = Fen::from_position(position.clone(), EnPassantMode::Legal);
            panic!("Illegal move {mv} from position {current}");
        });
        position.play_unchecked(&chess_move);
    }
    Fen::from_position(position, EnPassantMode::Legal).to_string()
}

#[test]
fn player_move_analysis_counts_frequencies() {
    let nodes = vec![
        node(START_FEN, &["g1f3", "e2e4"]),
        node(START_FEN, &["g1f3"]),
    ];

    let analysis = player_move_analysis(nodes).unwrap();

    let mut freq_map = HashMap::new();
    for tally in &analysis.frequencies {
        let piece = role_symbol(tally.fingerprint.role);
        let from_sq = square_name(tally.fingerprint.from);
        let to_sq = square_name(tally.fingerprint.to);
        let key = format!("{}{}{}", piece, from_sq, to_sq);
        freq_map.insert(key, tally.count);
    }
    assert_eq!(freq_map.get("Ng1f3"), Some(&2));
    assert_eq!(freq_map.get("Pe2e4"), Some(&1));

    let mut rankings = HashMap::new();
    for ranked in &analysis.rankings {
        rankings.insert(ranked.fen.clone(), &ranked.entries);
    }
    let moves = rankings.get(START_FEN).unwrap();
    let first = &moves[0];
    assert_eq!(first.uci, "g1f3");
    assert_eq!(first.frequency, 2);
}

#[test]
fn player_move_analysis_rejects_invalid_fen() {
    let nodes = vec![node("not a fen", &["e2e4"])];
    let err = player_move_analysis(nodes).unwrap_err();
    assert!(matches!(err, ChessError::InvalidFen { .. }));
}

#[test]
fn player_move_analysis_rejects_invalid_uci() {
    let nodes = vec![node(START_FEN, &["badmove"])];
    let err = player_move_analysis(nodes).unwrap_err();
    assert!(matches!(err, ChessError::InvalidUci { .. }));
}

#[test]
fn player_move_analysis_rejects_illegal_move() {
    let nodes = vec![node(START_FEN, &["e2e5"])];
    let err = player_move_analysis(nodes).unwrap_err();
    assert!(matches!(err, ChessError::IllegalMove { .. }));
}

#[test]
fn player_turn_mask_identifies_player_nodes() {
    let post_white = next_fen(START_FEN, &["e2e4"]);
    let post_black = next_fen(&post_white, &["e7e5"]);
    let fens = vec![
        START_FEN.to_string(),
        post_white.clone(),
        post_black.clone(),
    ];
    let white_mask = player_turn_mask(true, fens.clone()).unwrap();
    assert_eq!(white_mask, vec![true, false, true]);
    let black_mask = player_turn_mask(false, fens).unwrap();
    assert_eq!(black_mask, vec![false, true, false]);
}

#[test]
fn player_turn_mask_rejects_invalid_fen() {
    let err = player_turn_mask(true, vec!["bad fen".to_string()]).unwrap_err();
    assert!(matches!(err, ChessError::InvalidFen { .. }));
}

#[test]
fn turn_mask_of_nothing_is_empty() {
    assert_eq!(player_turn_mask(true, vec![]).unwrap(), Vec::<bool>::new());
}

#[test]
fn turn_mask_names_the_first_position_that_cannot_be_read() {
    let fens = vec![
        START_FEN.to_string(),
        "8/8/8/8/8/8/8/8 w - - 0 1".to_string(),
        "also bad".to_string(),
    ];
    let err = player_turn_mask(true, fens).unwrap_err();
    match &err {
        ChessError::InvalidPosition { fen, task, detail } => {
            assert_eq!(fen, "8/8/8/8/8/8/8/8 w - - 0 1");
            assert_eq!(*task, Task::CheckingTurn);
            assert!(detail.starts_with("illegal position: "));
        }
        other => panic!("unexpected {:?}", other),
    }
    assert!(err
        .message()
        .starts_with("Unable to construct position from '8/8/8/8/8/8/8/8 w - - 0 1' while checking turn: illegal position: "));
}

#[test]
fn messages_say_what_was_refused() {
    let err = player_turn_mask(true, vec!["bad fen".to_string()]).unwrap_err();
    assert_eq!(err.message(), "Invalid FEN 'bad fen' while checking turn: invalid board part in fen");
    let err = canonicalize_fen("bad fen".to_string()).unwrap_err();
    assert_eq!(err.message(), "Invalid FEN 'bad fen' while canonicalizing: invalid board part in fen");
    let err = player_move_analysis(vec![node("not a fen", &["e2e4"])]).unwrap_err();
    assert_eq!(err.message(), "Invalid FEN 'not a fen': invalid board part in fen");
    let err = player_move_analysis(vec![node(START_FEN, &["badmove"])]).unwrap_err();
    assert_eq!(err.message(), format!("Invalid UCI 'badmove' for {}: invalid uci", START_FEN));
    let err = player_move_analysis(vec![node(START_FEN, &["e2e5"])]).unwrap_err();
    assert_eq!(err.message(), format!("Move 'e2e5' is illegal in position {}", START_FEN));
    let err = read_entry(START_FEN, "zz", Task::SortingChildren).unwrap_err();
    assert_eq!(
        err.message(),
        format!("Invalid UCI 'zz' for node {} while sorting children: invalid uci", START_FEN)
    );
    assert_eq!(ChessError::NoOrigin.message(), "Move lacks origin square");
    let err = ChessError::InvalidFen { fen: "x".into(), task: Task::NodeList, detail: "d".into() };
    assert_eq!(err.message(), "Invalid FEN 'x' in node list: d");
}

#[test]
fn position_is_read_through_the_rules_library() {
    // No pawn can capture on e3, so the square is not kept.
    assert_eq!(
        canonicalize_fen_str("rnbqkbnr/pppppppp/8/8/4P3/8/PPPP1PPP/RNBQKBNR b KQkq e3 0 1").unwrap(),
        "rnbqkbnr/pppppppp/8/8/4P3/8/PPPP1PPP/RNBQKBNR b KQkq - 0 1"
    );
    // A pawn can capture on d6, so the square is kept.
    assert_eq!(
        canonicalize_fen_str("rnbqkbnr/ppp1pppp/8/3pP3/8/8/PPPP1PPP/RNBQKBNR w KQkq d6 0 3").unwrap(),
        "rnbqkbnr/ppp1pppp/8/3pP3/8/8/PPPP1PPP/RNBQKBNR w KQkq d6 0 1"
    );
    assert!(matches!(canonicalize_fen_str("nonsense"), Err(ChessError::InvalidFen { .. })));
    assert!(matches!(
        canonicalize_fen_str("8/8/8/8/8/8/8/8 w - - 0 1"),
        Err(ChessError::InvalidPosition { .. })
    ));
}

#[test]
fn canonical_form_sets_the_counters_back() {
    let fen = "r1bqkbnr/pppp1ppp/2n5/4p3/4P3/5N2/PPPP1PPP/RNBQKB1R w KQkq - 2 3";
    assert_eq!(
        canonicalize_fen(fen.to_string()).unwrap(),
        "r1bqkbnr/pppp1ppp/2n5/4p3/4P3/5N2/PPPP1PPP/RNBQKB1R w KQkq - 0 1"
    );
    assert_eq!(canonicalize_fen_str(START_FEN).unwrap(), START_FEN);
    // Missing fields are filled in, and underscores are taken for spaces.
    assert_eq!(
        canonicalize_fen_str("rnbqkbnr/pppppppp/8/8/8/8/PPPPPPPP/RNBQKBNR_w_KQkq").unwrap(),
        START_FEN
    );
    assert!(matches!(
        canonicalize_fen_str("8/8/8/8/8/8/8/8 w - - 0 1"),
        Err(ChessError::InvalidPosition { task: Task::Canonicalizing, .. })
    ));
}

#[test]
fn counters_are_reset_only_in_texts_of_six_fields() {
    assert_eq!(reset_move_counters("a b c d 17 42"), "a b c d 0 1");
    assert_eq!(reset_move_counters("  a\tb  c d 17 42\n"), "a b c d 0 1");
    assert_eq!(reset_move_counters("a b c d 17"), "a b c d 17");
    assert_eq!(reset_move_counters("a b  c d 17 42 x"), "a b  c d 17 42 x");
    assert_eq!(reset_move_counters(""), "");
}

#[test]
fn move_is_read_through_the_rules_library() {
    let knight = read_entry(START_FEN, "g1f3", Task::Analysis).unwrap();
    assert_eq!(knight.fingerprint.role, Role::Knight);
    assert_eq!((knight.fingerprint.from.index(), knight.fingerprint.to.index()), (6, 21));
    assert_eq!(knight.san, "Nf3");
    let mate = read_entry(
        "rnbqkbnr/pppp1ppp/8/4p3/6P1/5P2/PPPPP2P/RNBQKBNR b KQkq - 0 2",
        "d8h4",
        Task::Analysis,
    )
    .unwrap();
    assert_eq!(mate.san, "Qh4#");
    assert_eq!(mate.fingerprint.role, Role::Queen);
    // Castling goes to the square of the rook.
    let castle = read_entry("r3k2r/8/8/8/8/8/8/R3K2R w KQkq - 0 1", "e1g1", Task::Analysis).unwrap();
    assert_eq!(castle.fingerprint.role, Role::King);
    assert_eq!((castle.fingerprint.from.index(), castle.fingerprint.to.index()), (4, 7));
    assert_eq!(castle.san, "O-O");
    assert!(matches!(read_entry(START_FEN, "e2", Task::Analysis), Err(ChessError::InvalidUci { .. })));
    assert!(matches!(read_entry(START_FEN, "0000", Task::Analysis), Err(ChessError::IllegalMove { .. })));
    assert!(matches!(read_entry(START_FEN, "e2e5", Task::Analysis), Err(ChessError::IllegalMove { .. })));
}

#[test]
fn entry_of_an_unreadable_position_is_refused_as_the_position() {
    let err = read_entry("nonsense", "e2e4", Task::Analysis).unwrap_err();
    assert!(matches!(err, ChessError::InvalidFen { .. }));
    let entry = read_entry(START_FEN, "e2e4", Task::Analysis).unwrap();
    assert_eq!(entry.uci, "e2e4");
    assert_eq!(entry.san, "e4");
    assert_eq!(entry.frequency, 0);
    assert_eq!(entry.fingerprint.role, Role::Pawn);
    assert_eq!(square_name(entry.fingerprint.from), "e2");
    assert_eq!(square_name(entry.fingerprint.to), "e4");
}

#[test]
fn squares_and_roles_have_their_names() {
    assert_eq!(square_name(Square::new(0).unwrap()), "a1");
    assert_eq!(square_name(Square::new(7).unwrap()), "h1");
    assert_eq!(square_name(Square::new(8).unwrap()), "a2");
    assert_eq!(square_name(Square::new(63).unwrap()), "h8");
    assert_eq!(Square::new(64), None);
    for index in 0..64u8 {
        let square = shakmaty::Square::new(u32::from(index));
        assert_eq!(square_name(Square::new(index).unwrap()), square.to_string());
    }
    for role in shakmaty::Role::ALL {
        let own = Role::from_index(u8::from(role)).unwrap();
        assert_eq!(role_symbol(own), role.upper_char().to_string());
    }
    assert_eq!(Role::from_index(0), None);
    assert_eq!(Role::from_index(7), None);
    assert_eq!(role_symbol(Role::Knight), "N");
}

#[test]
fn moves_are_listed_by_frequency_then_notation() {
    let after_e4 = next_fen(START_FEN, &["e2e4"]);
    let nodes = vec![
        node(START_FEN, &["g1f3", "e2e4", "d2d4", "b1c3"]),
        node(&after_e4, &["e7e5", "c7c5"]),
        node(START_FEN, &["e2e4", "d2d4"]),
        node(START_FEN, &["d2d4"]),
    ];
    let analysis = player_move_analysis(nodes).unwrap();
    let tallies: Vec<(String, u32)> = analysis
        .frequencies
        .iter()
        .map(|t| (format!("{}{}", square_name(t.fingerprint.from), square_name(t.fingerprint.to)), t.count))
        .collect();
    assert_eq!(
        tallies,
        vec![
            ("g1f3".to_string(), 1),
            ("e2e4".to_string(), 2),
            ("d2d4".to_string(), 3),
            ("b1c3".to_string(), 1),
            ("e7e5".to_string(), 1),
            ("c7c5".to_string(), 1),
        ]
    );
    let listed: Vec<Vec<(&str, &str, u32)>> = analysis
        .rankings
        .iter()
        .map(|n| n.entries.iter().map(|e| (e.uci.as_str(), e.san.as_str(), e.frequency)).collect())
        .collect();
    assert_eq!(
        listed,
        vec![
            vec![("d2d4", "d4", 3), ("e2e4", "e4", 2), ("b1c3", "Nc3", 1), ("g1f3", "Nf3", 1)],
            vec![("c7c5", "c5", 1), ("e7e5", "e5", 1)],
            vec![("d2d4", "d4", 3), ("e2e4", "e4", 2)],
            vec![("d2d4", "d4", 3)],
        ]
    );
    assert_eq!(analysis.rankings[1].fen, after_e4);
}

#[test]
fn nothing_is_counted_when_a_later_node_is_refused() {
    let nodes = vec![node(START_FEN, &["e2e4"]), node(START_FEN, &["e2e4", "e7e5"])];
    let err = player_move_analysis(nodes).unwrap_err();
    assert!(matches!(&err, ChessError::IllegalMove { uci, .. } if uci == "e7e5"));
    let analysis = player_move_analysis(vec![]).unwrap();
    assert!(analysis.frequencies.is_empty());
    assert!(analysis.rankings.is_empty());
}
