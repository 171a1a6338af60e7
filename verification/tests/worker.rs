use rep_grow::config::PoolKey;
use rep_grow::error::EngineError;
use rep_grow::parser::EvalPayload;
use rep_grow::pool::StockfishPool;
use rep_grow::worker::{Step, StockfishWorker, WorkerPhase};

/// A channel that answers from a script and records what is written.
struct MockIo {
    writes: Vec<String>,
    reads: Vec<String>,
}

impl MockIo {
    fn new(responses: Vec<&str>) -> Self {
        Self {
            writes: Vec::new(),
            reads: responses.into_iter().map(|s| format!("{s}\n")).collect(),
        }
    }

    fn write_line(&mut self, line: &str) -> Result<(), String> {
        self.writes.push(line.to_string());
        Ok(())
    }

    fn read_line(&mut self) -> Result<String, String> {
        if self.reads.is_empty() {
            return Err("no more lines".to_string());
        }
        Ok(self.reads.remove(0))
    }
}

/// Carries out what the worker asks for until the handshake or the search
/// is over.
fn drive(
    worker: &mut StockfishWorker,
    io: &mut MockIo,
    first: Result<Step, EngineError>,
) -> Result<Option<EvalPayload>, EngineError> {
    let mut step = first?;
    loop {
        match step {
            Step::Exchange(send) => {
                for command in send {
                    if let Err(detail) = io.write_line(&command) {
                        return Err(worker.write_failed(&detail));
                    }
                }
                match io.read_line() {
                    Ok(line) => step = worker.on_line(&line)?,
                    Err(detail) => return Err(worker.read_failed(&detail)),
                }
            }
            Step::Initialized => return Ok(None),
            Step::Evaluated(payload) => return Ok(Some(payload)),
        }
    }
}

fn key(depth: u32, think_time_ms: Option<u64>) -> PoolKey {
    PoolKey::new("engine".into(), depth, 2, think_time_ms, 1)
}

#[test]
fn worker_emits_expected_commands() {
    let mut mock = MockIo::new(vec![
        "uciok",
        "readyok",
        "info depth 8 nodes 50000 multipv 1 score cp 15 pv e2e4 e7e5",
        "bestmove e2e4",
    ]);
    let mut worker = StockfishWorker::new(2);
    let first = worker.initialize();
    drive(&mut worker, &mut mock, first).unwrap();
    let key = PoolKey {
        engine_path: "engine".into(),
        depth: 12,
        multi_pv: 2,
        think_time_ms: None,
        pool_size: 1,
    };
    let first = worker.evaluate("fen", &key);
    let payload = drive(&mut worker, &mut mock, first).unwrap().unwrap();
    assert_eq!(payload.pvs.len(), 1);
    let writes = &mock.writes;
    assert_eq!(writes[0], "uci");
    assert!(writes.iter().any(|cmd| cmd.starts_with("position fen")));
    assert!(writes.iter().any(|cmd| cmd.starts_with("go depth")));
}

#[test]
fn the_whole_exchange_is_as_the_protocol_says() {
    let mut mock = MockIo::new(vec![
        "id name Engine",
        "option name MultiPV type spin",
        "uciok",
        "readyok",
        "info string starting",
        "info depth 10 nodes 100000 multipv 1 score cp 50 pv e2e4 e7e5",
        "info depth 10 nodes 100000 multipv 2 score cp 30 pv d2d4 d7d5",
        "bestmove e2e4 ponder e7e5",
    ]);
    let mut worker = StockfishWorker::new(2);
    assert_eq!(worker.phase(), WorkerPhase::Spawned);
    let first = worker.initialize();
    assert_eq!(worker.phase(), WorkerPhase::AwaitingUciOk);
    assert!(drive(&mut worker, &mut mock, first).unwrap().is_none());
    assert_eq!(worker.phase(), WorkerPhase::Ready);
    assert_eq!(mock.writes, vec!["uci", "setoption name MultiPV value 2", "isready"]);

    let first = worker.evaluate("rnbqkbnr/pppppppp/8/8/8/8/PPPPPPPP/RNBQKBNR w KQkq - 0 1", &key(10, None));
    assert_eq!(worker.phase(), WorkerPhase::Searching);
    let payload = drive(&mut worker, &mut mock, first).unwrap().unwrap();
    assert_eq!(worker.phase(), WorkerPhase::Ready);
    assert_eq!(
        mock.writes[3..],
        [
            "ucinewgame",
            "position fen rnbqkbnr/pppppppp/8/8/8/8/PPPPPPPP/RNBQKBNR w KQkq - 0 1",
            "go depth 10",
        ]
    );
    assert_eq!(payload.fen, "rnbqkbnr/pppppppp/8/8/8/8/PPPPPPPP/RNBQKBNR w KQkq - 0 1");
    assert_eq!(payload.depth, 10);
    assert_eq!(payload.knodes, 100);
    assert_eq!(payload.pvs.len(), 2);
    assert_eq!((payload.pvs[0].rank, payload.pvs[0].cp), (1, Some(50)));
    assert_eq!(payload.pvs[0].moves_text(), "e2e4 e7e5");
    assert_eq!((payload.pvs[1].rank, payload.pvs[1].cp), (2, Some(30)));
    assert_eq!(payload.pvs[1].moves_text(), "d2d4 d7d5");
    assert!(mock.reads.is_empty());
}

#[test]
fn search_is_bounded_by_time_where_a_time_is_set() {
    assert_eq!(StockfishWorker::go_command(&key(12, Some(1))), "go movetime 1");
    assert_eq!(StockfishWorker::go_command(&key(12, Some(2500))), "go movetime 2500");
    assert_eq!(StockfishWorker::go_command(&key(12, None)), "go depth 12");
    assert_eq!(StockfishWorker::go_command(&key(0, None)), "go depth 0");
    assert_eq!(key(4294967295, None).go_command(), "go depth 4294967295");
    assert_eq!(key(1, Some(u64::MAX)).go_command(), "go movetime 18446744073709551615");
}

#[test]
fn each_search_starts_from_nothing() {
    let mut mock = MockIo::new(vec![
        "uciok",
        "readyok",
        "info depth 20 nodes 9000000 multipv 1 score cp 50 pv e2e4",
        "info depth 20 nodes 9000000 multipv 2 score cp 40 pv d2d4",
        "bestmove e2e4",
        "bestmove a2a3",
    ]);
    let mut worker = StockfishWorker::new(2);
    let first = worker.initialize();
    drive(&mut worker, &mut mock, first).unwrap();
    let first = worker.evaluate("a", &key(20, None));
    let one = drive(&mut worker, &mut mock, first).unwrap().unwrap();
    assert_eq!(one.pvs.len(), 2);
    let first = worker.evaluate("b", &key(20, None));
    let two = drive(&mut worker, &mut mock, first).unwrap().unwrap();
    assert_eq!(two.fen, "b");
    assert_eq!(two.depth, 0);
    assert_eq!(two.knodes, 0);
    assert!(two.pvs.is_empty());
}

#[test]
fn channel_closing_in_mid_search_fails_the_request() {
    let mut mock = MockIo::new(vec![
        "uciok",
        "readyok",
        "info depth 8 nodes 50000 multipv 1 score cp 15 pv e2e4 e7e5",
    ]);
    let mut worker = StockfishWorker::new(1);
    let first = worker.initialize();
    drive(&mut worker, &mut mock, first).unwrap();
    let first = worker.evaluate("fen", &key(8, None));
    let err = drive(&mut worker, &mut mock, first).unwrap_err();
    assert!(matches!(&err, EngineError::Terminated { detail } if detail == "no more lines"));
    assert_eq!(err.message(), "Stockfish terminated unexpectedly: no more lines");
    assert_eq!(worker.phase(), WorkerPhase::Failed);
    // The worker stays failed: a later request is refused and writes nothing.
    let before = mock.writes.len();
    let again = worker.evaluate("fen", &key(8, None));
    assert!(matches!(again, Err(EngineError::OutOfTurn)));
    assert_eq!(mock.writes.len(), before);
    assert_eq!(worker.phase(), WorkerPhase::Failed);
}

#[test]
fn channel_closing_in_the_handshake_fails_the_worker() {
    let mut mock = MockIo::new(vec!["id name Engine"]);
    let mut worker = StockfishWorker::new(1);
    let first = worker.initialize();
    let err = drive(&mut worker, &mut mock, first).unwrap_err();
    assert_eq!(err.message(), "Error waiting for 'uciok': no more lines");
    assert_eq!(worker.phase(), WorkerPhase::Failed);

    let mut mock = MockIo::new(vec!["uciok", "not ready"]);
    let mut worker = StockfishWorker::new(1);
    let first = worker.initialize();
    let err = drive(&mut worker, &mut mock, first).unwrap_err();
    assert!(matches!(&err, EngineError::Waiting { needle, .. } if needle == "readyok"));
    assert_eq!(err.message(), "Error waiting for 'readyok': no more lines");
    assert_eq!(mock.writes, vec!["uci", "setoption name MultiPV value 1", "isready"]);
}

#[test]
fn failed_write_is_a_failure_to_communicate() {
    let mut worker = StockfishWorker::new(1);
    let _ = worker.initialize().unwrap();
    let err = worker.write_failed("Broken pipe");
    assert!(matches!(&err, EngineError::Communicate { .. }));
    assert_eq!(err.message(), "Failed to communicate with Stockfish: Broken pipe");
    assert_eq!(worker.phase(), WorkerPhase::Failed);
}

#[test]
fn failure_to_launch_names_the_engine() {
    let err = EngineError::launch("/usr/bin/stockfish", "No such file or directory");
    assert_eq!(
        err.message(),
        "Unable to launch Stockfish at '/usr/bin/stockfish': No such file or directory"
    );
}

#[test]
fn requests_out_of_turn_are_refused_and_change_nothing() {
    let mut worker = StockfishWorker::new(1);
    assert!(matches!(worker.evaluate("fen", &key(1, None)), Err(EngineError::OutOfTurn)));
    assert!(matches!(worker.on_line("uciok"), Err(EngineError::OutOfTurn)));
    assert!(matches!(worker.read_failed("x"), EngineError::OutOfTurn));
    assert!(matches!(worker.write_failed("x"), EngineError::OutOfTurn));
    assert_eq!(worker.phase(), WorkerPhase::Spawned);
    assert!(worker.initialize().is_ok());
    assert!(matches!(worker.initialize(), Err(EngineError::OutOfTurn)));
    assert_eq!(worker.phase(), WorkerPhase::AwaitingUciOk);
    assert_eq!(EngineError::OutOfTurn.message(), "Stockfish worker used out of turn");
}

#[test]
fn lines_that_say_nothing_keep_the_worker_waiting() {
    let mut worker = StockfishWorker::new(3);
    let _ = worker.initialize().unwrap();
    assert!(matches!(worker.on_line("readyok\n"), Ok(Step::Exchange(send)) if send.is_empty()));
    assert_eq!(worker.phase(), WorkerPhase::AwaitingUciOk);
    match worker.on_line("xx uciok yy\n") {
        Ok(Step::Exchange(send)) => {
            assert_eq!(send, vec!["setoption name MultiPV value 3", "isready"])
        }
        other => panic!("unexpected {:?}", other),
    }
    assert!(matches!(worker.on_line("uciok\n"), Ok(Step::Exchange(send)) if send.is_empty()));
    assert_eq!(worker.phase(), WorkerPhase::AwaitingReadyOk);
    assert!(matches!(worker.on_line("readyok\n"), Ok(Step::Initialized)));
    let _ = worker.evaluate("fen", &key(1, None)).unwrap();
    assert!(matches!(worker.on_line("information\n"), Ok(Step::Exchange(send)) if send.is_empty()));
    assert!(matches!(worker.on_line(" bestmove e2e4\n"), Ok(Step::Exchange(send)) if send.is_empty()));
    assert!(matches!(worker.on_line("info depth 3\n"), Ok(Step::Exchange(send)) if send.is_empty()));
    match worker.on_line("bestmove e2e4\n") {
        Ok(Step::Evaluated(payload)) => assert_eq!(payload.depth, 3),
        other => panic!("unexpected {:?}", other),
    }
}

#[test]
fn shutdown_runs_once_from_any_phase() {
    let mut worker = StockfishWorker::new(1);
    assert_eq!(worker.shutdown().as_deref(), Some("quit"));
    assert_eq!(worker.phase(), WorkerPhase::Terminating);
    assert_eq!(worker.shutdown(), None);
    worker.exited();
    assert_eq!(worker.phase(), WorkerPhase::Terminated);
    assert_eq!(worker.shutdown(), None);
    assert!(matches!(worker.initialize(), Err(EngineError::OutOfTurn)));
    assert_eq!(worker.phase(), WorkerPhase::Terminated);

    let mut worker = StockfishWorker::new(1);
    let _ = worker.initialize().unwrap();
    let _ = worker.read_failed("closed");
    assert_eq!(worker.phase(), WorkerPhase::Failed);
    worker.exited();
    assert_eq!(worker.phase(), WorkerPhase::Failed);
    assert_eq!(worker.shutdown().as_deref(), Some("quit"));
    worker.exited();
    assert_eq!(worker.phase(), WorkerPhase::Terminated);
}

#[test]
fn a_worker_that_fails_leaves_the_pool_and_the_others_usable() {
    // Two workers: the first loses its channel in mid-search, the second
    // answers. Requests keep going to both in turn.
    let scripts = vec![
        vec!["uciok", "readyok", "info depth 3 multipv 1 score cp 9 pv e2e4"],
        vec![
            "uciok",
            "readyok",
            "info depth 5 nodes 7000 multipv 1 score cp 11 pv d2d4",
            "bestmove d2d4",
            "info depth 6 nodes 9000 multipv 1 score mate 2 pv g1f3",
            "bestmove g1f3",
        ],
    ];
    let pool_key = PoolKey::new("engine".into(), 5, 1, None, 2);
    let mut slots: Vec<(StockfishWorker, MockIo)> = Vec::new();
    for script in scripts {
        let mut worker = StockfishWorker::new(pool_key.multi_pv);
        let mut io = MockIo::new(script);
        let first = worker.initialize();
        drive(&mut worker, &mut io, first).unwrap();
        slots.push((worker, io));
    }
    let handles: Vec<usize> = (0..slots.len()).collect();
    let mut pool = StockfishPool::new(&pool_key, handles).ok().unwrap();
    let mut evaluate = |fen: &str| {
        let turn = pool.next_worker();
        let index = *pool.worker(turn).unwrap();
        let (worker, io) = &mut slots[index];
        let first = worker.evaluate(fen, &pool_key);
        (index, drive(worker, io, first))
    };
    let (index, outcome) = evaluate("one");
    assert_eq!(index, 0);
    assert!(matches!(outcome, Err(EngineError::Terminated { .. })));
    let (index, outcome) = evaluate("two");
    assert_eq!(index, 1);
    let payload = outcome.unwrap().unwrap();
    assert_eq!((payload.fen.as_str(), payload.depth, payload.knodes), ("two", 5, 7));
    // The failed worker still gets its turn, and still fails.
    let (index, outcome) = evaluate("three");
    assert_eq!(index, 0);
    assert!(matches!(outcome, Err(EngineError::OutOfTurn)));
    let (index, outcome) = evaluate("four");
    assert_eq!(index, 1);
    let payload = outcome.unwrap().unwrap();
    assert_eq!(payload.pvs[0].mate, Some(2));
    assert_eq!(payload.depth, 6);
}

/// Whole milliseconds from seconds, as the caller of the library makes them.
fn millis(seconds: f64) -> Option<u64> {
    if seconds <= 0.0 {
        None
    } else {
        Some((seconds * 1000.0).round().clamp(1.0, f64::MAX) as u64)
    }
}

#[test]
fn think_time_below_a_millisecond_still_bounds_the_search_by_time() {
    let short = PoolKey::new("engine".into(), 10, 2, millis(0.0005), 1);
    assert_eq!(short.think_time_ms, Some(1));
    assert_eq!(short.go_command(), "go movetime 1");
    assert_eq!(PoolKey::new("engine".into(), 10, 2, millis(0.0004), 1).go_command(), "go movetime 1");
    assert_eq!(PoolKey::new("engine".into(), 10, 2, millis(1.5), 1).go_command(), "go movetime 1500");
    for seconds in [0.0, -0.0, -2.5] {
        let none = PoolKey::new("engine".into(), 10, 2, millis(seconds), 1);
        assert_eq!(none.think_time_ms, None);
        assert_eq!(none.go_command(), "go depth 10");
    }
}
