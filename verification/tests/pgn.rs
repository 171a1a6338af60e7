use rep_grow::mainline::{build_rankings, group_plies, play_mainline, read_ply, stop_at};
use rep_grow::pgn::{parse_mainline_san, read_token, PgnError, TokenReading};

const START_FEN: &str = "rnbqkbnr/pppppppp/8/8/8/8/PPPPPPPP/RNBQKBNR w KQkq - 0 1";

const SAMPLE: &str = r#"[Event "?"]
[Site "?"]
[Date "2024.01.01"]
[Round "?"]
[White "?"]
[Black "?"]
[Result "*"]

1. e4 e5 2. Nf3 Nc6 3. Bb5 a6 *
"#;

fn sans(moves: &[&str]) -> Vec<String> {
    moves.iter().map(|m| m.to_string()).collect()
}

#[test]
fn main_line_of_a_record_is_read() {
    assert_eq!(parse_mainline_san(SAMPLE).unwrap(), sans(&["e4", "e5", "Nf3", "Nc6", "Bb5", "a6"]));
}

#[test]
fn variations_comments_and_annotations_are_passed_over() {
    let text = "1. e4 $1 {best} e5 (1... c5 2. Nf3 (2. c3) d6) 2. Nf3 Nc6 ( 2... d6 ) 3.Bb5 a6 1-0 4. Ba4";
    // `{best}` is passed over as a comment; `3.Bb5` holds a dot and is
    // passed over like a move number.
    assert_eq!(parse_mainline_san(text).unwrap(), sans(&["e4", "e5", "Nf3", "Nc6", "a6"]));
    assert_eq!(parse_mainline_san("").unwrap(), Vec::<String>::new());
    assert_eq!(parse_mainline_san("1/2-1/2 e4").unwrap(), Vec::<String>::new());
    assert_eq!(parse_mainline_san("e4 0-1 e5").unwrap(), sans(&["e4"]));
    assert_eq!(parse_mainline_san("(e4) e5").unwrap(), sans(&["e5"]));
    assert_eq!(parse_mainline_san("(e4 d4 e5").unwrap(), Vec::<String>::new());
}

#[test]
fn closing_more_than_was_open_is_made_up_for() {
    // The first token leaves the depth at -1, so the variation opened by
    // `(d4` is at depth 0 and its first move counts for the main line.
    assert_eq!(parse_mainline_san("(e4)) (d4 d5").unwrap(), sans(&["d4", "d5"]));
    let (reading, depth) = read_token("(e4))", 0);
    assert!(matches!(reading, TokenReading::Skip));
    assert_eq!(depth, -1);
    let (reading, depth) = read_token("(d4", -1);
    assert!(matches!(reading, TokenReading::Move(ref t) if t == "d4"));
    assert_eq!(depth, 0);
    let (reading, depth) = read_token("e4)", 0);
    assert!(matches!(reading, TokenReading::Move(ref t) if t == "e4"));
    assert_eq!(depth, 0);
    let (reading, depth) = read_token("[Event", 3);
    assert!(matches!(reading, TokenReading::Skip));
    assert_eq!(depth, 3);
    let (reading, _) = read_token("()", 0);
    assert!(matches!(reading, TokenReading::Skip));
    let (reading, _) = read_token("*", 0);
    assert!(matches!(reading, TokenReading::Stop));
    let (reading, _) = read_token("$14", 0);
    assert!(matches!(reading, TokenReading::Skip));
}

#[test]
fn token_that_is_no_move_is_refused() {
    let err = parse_mainline_san("1. e4 xyz e5").unwrap_err();
    assert!(matches!(&err, PgnError::InvalidSan { token, detail } if token == "xyz" && detail == "invalid san"));
    assert_eq!(err.message(), "Invalid SAN token in PGN: xyz");
    assert!(parse_mainline_san("1. e4 * xyz").is_ok());
}

#[test]
fn san_syntax_is_asked_of_the_rules_library() {
    assert_eq!(
        parse_mainline_san("Nf3 O-O-O+ exd8=Q# Q@f7 --").unwrap(),
        vec!["Nf3", "O-O-O+", "exd8=Q#", "Q@f7", "--"]
    );
    let err = parse_mainline_san("hello").unwrap_err();
    assert!(matches!(&err, PgnError::InvalidSan { token, detail } if token == "hello" && detail == "invalid san"));
}

#[test]
fn san_is_read_in_its_position() {
    let (ply, next) = read_ply(START_FEN, "Nf3", true).unwrap();
    assert_eq!((ply.san.as_str(), ply.uci.as_str()), ("Nf3", "g1f3"));
    assert!(ply.white_moved);
    assert_eq!(next, "rnbqkbnr/pppppppp/8/8/8/5N2/PPPPPPPP/RNBQKB1R b KQkq - 1 1");
    assert_eq!(ply.parent.fen, START_FEN);
    assert_eq!(ply.child.fen, "rnbqkbnr/pppppppp/8/8/8/5N2/PPPPPPPP/RNBQKB1R b KQkq - 0 1");
    assert!(!ply.child.white_to_move);
    let fingerprint = ply.fingerprint.unwrap();
    assert_eq!((fingerprint.from.index(), fingerprint.to.index()), (6, 21));
    let (castle, _) = read_ply("r3k2r/8/8/8/8/8/8/R3K2R w KQkq - 0 1", "O-O", true).unwrap();
    assert_eq!(castle.uci, "e1g1");
    assert!(matches!(read_ply("nonsense", "e4", true), Err(PgnError::Fen { .. })));
    assert!(matches!(read_ply(START_FEN, "??", true), Err(PgnError::InvalidSan { .. })));
    assert!(matches!(
        read_ply(START_FEN, "e5", true),
        Err(PgnError::IllegalSan { ref detail }) if detail == "illegal san"
    ));
    assert!(matches!(
        read_ply("4k3/8/8/8/8/8/8/1N2KN2 w - - 0 1", "Nd2", true),
        Err(PgnError::IllegalSan { ref detail }) if detail == "ambiguous san"
    ));
}

#[test]
fn move_leads_to_the_next_position() {
    let (_, next) = read_ply(START_FEN, "e4", true).unwrap();
    assert_eq!(next, "rnbqkbnr/pppppppp/8/8/4P3/8/PPPP1PPP/RNBQKBNR b KQkq - 0 1");
    let (_, next) = read_ply(&next, "c5", true).unwrap();
    assert_eq!(next, "rnbqkbnr/pp1ppppp/8/2p5/4P3/8/PPPP1PPP/RNBQKBNR w KQkq - 0 2");
}

#[test]
fn stops_carry_the_canonical_fen_and_the_turn() {
    let stop = stop_at("rnbqkbnr/pppppppp/8/8/4P3/8/PPPP1PPP/RNBQKBNR b KQkq e3 0 7").unwrap();
    assert_eq!(stop.fen, "rnbqkbnr/pppppppp/8/8/4P3/8/PPPP1PPP/RNBQKBNR b KQkq - 0 1");
    assert!(!stop.white_to_move);
    assert!(matches!(stop_at("junk"), Err(PgnError::Canonical(_))));
}

#[test]
fn rankings_of_the_sample_game_for_white() {
    let line = parse_mainline_san(SAMPLE).unwrap();
    let rankings = build_rankings(&line, true).unwrap();
    assert_eq!(rankings.total_nodes, 4);
    assert_eq!(rankings.nodes.len(), 4);
    assert_eq!(rankings.nodes[0].fen, START_FEN);
    let listed: Vec<Vec<(&str, &str, u32)>> = rankings
        .nodes
        .iter()
        .map(|n| n.entries.iter().map(|e| (e.uci.as_str(), e.san.as_str(), e.frequency)).collect())
        .collect();
    assert_eq!(
        listed,
        vec![
            vec![("e2e4", "e4", 1)],
            vec![("g1f3", "Nf3", 1)],
            vec![("f1b5", "Bb5", 1)],
            vec![],
        ]
    );
    assert!(rankings.nodes.iter().any(|n| n.entries.iter().any(|e| e.san == "e4")));
    assert_eq!(rankings.frequencies.len(), 3);
    assert!(rankings.frequencies.iter().all(|t| t.count == 1));
}

#[test]
fn rankings_for_black_and_of_an_empty_line() {
    let line = parse_mainline_san(SAMPLE).unwrap();
    let rankings = build_rankings(&line, false).unwrap();
    assert_eq!(rankings.total_nodes, 3);
    let sans: Vec<&str> = rankings.nodes.iter().map(|n| n.entries[0].san.as_str()).collect();
    assert_eq!(sans, vec!["e5", "Nc6", "a6"]);
    let empty = build_rankings(&vec![], true).unwrap();
    assert_eq!(empty.total_nodes, 1);
    assert_eq!(empty.nodes[0].fen, START_FEN);
    assert!(empty.nodes[0].entries.is_empty());
    assert_eq!(build_rankings(&vec![], false).unwrap().total_nodes, 0);
}

#[test]
fn repeated_positions_gather_their_moves() {
    // The knights go out and back twice: the starting position is reached
    // three times, and from it Nf3 is played twice and Nc3 once.
    let line = sans(&["Nf3", "Nf6", "Ng1", "Ng8", "Nf3", "Nf6", "Ng1", "Ng8", "Nc3"]);
    let rankings = build_rankings(&line, true).unwrap();
    let root = &rankings.nodes[0];
    assert_eq!(root.fen, START_FEN);
    let listed: Vec<(&str, u32)> = root.entries.iter().map(|e| (e.san.as_str(), e.frequency)).collect();
    assert_eq!(listed, vec![("Nf3", 2), ("Nf3", 2), ("Nc3", 1)]);
    assert_eq!(rankings.total_nodes, 2);
    let plies = play_mainline(&line, true).unwrap();
    let groups = group_plies(&stop_at(START_FEN).unwrap(), &plies);
    assert_eq!(groups.len(), 5);
    assert_eq!(groups[0].plies, vec![0, 4, 8]);
    assert!(groups[0].white_to_move);
    assert_eq!(groups[1].plies, vec![1, 5]);
}

#[test]
fn line_that_cannot_be_played_is_refused() {
    let err = build_rankings(&sans(&["e4", "e4"]), true).unwrap_err();
    assert!(matches!(&err, PgnError::IllegalSan { detail } if detail == "illegal san"));
    assert_eq!(err.message(), "illegal san");
    let err = build_rankings(&sans(&["e4", "zz"]), true).unwrap_err();
    assert!(matches!(&err, PgnError::InvalidSan { token, .. } if token == "zz"));
    assert_eq!(PgnError::NoOrigin.message(), "Move lacks origin square");
}

#[test]
fn freq_cli_outputs_expected_json() {
    let line = parse_mainline_san(SAMPLE).unwrap();
    let built = build_rankings(&line, true).unwrap();
    let mut rankings = serde_json::Map::new();
    for node in &built.nodes {
        let moves: Vec<serde_json::Value> = node
            .entries
            .iter()
            .map(|entry| {
                let mut ranked = serde_json::Map::new();
                ranked.insert("uci".to_string(), serde_json::Value::from(entry.uci.clone()));
                ranked.insert("san".to_string(), serde_json::Value::from(entry.san.clone()));
                ranked.insert("frequency".to_string(), serde_json::Value::from(entry.frequency));
                serde_json::Value::Object(ranked)
            })
            .collect();
        rankings.insert(node.fen.clone(), serde_json::Value::Array(moves));
    }
    let mut object = serde_json::Map::new();
    object.insert("side".to_string(), serde_json::Value::from("white"));
    object.insert("total_nodes".to_string(), serde_json::Value::from(built.total_nodes));
    object.insert("rankings".to_string(), serde_json::Value::Object(rankings));
    let stdout = serde_json::to_string(&serde_json::Value::Object(object)).unwrap();
    let payload: serde_json::Value = serde_json::from_str(&stdout).expect("json output");

    assert_eq!(payload["side"], "white");
    let rankings = payload["rankings"].as_object().expect("rankings map");
    assert!(!rankings.is_empty());
    let has_e4 = rankings
        .values()
        .filter_map(|v| v.as_array())
        .flat_map(|arr| arr.iter())
        .any(|m| m["san"] == "e4");
    assert!(has_e4, "expected to see e4 in any ranking entry");
}
