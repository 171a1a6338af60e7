//! One engine worker's side of the protocol, as a state machine.
//!
//! A worker owns no channel. It is told what happened (a line arrived, the
//! channel failed) and answers with what to do next: which commands to write,
//! whether to read another line, and what the search found. Whoever owns the
//! channel writes and reads as told.
//!
//! A worker whose channel has failed stays failed: every later request on it
//! is refused, and only its shutdown is still carried out.

use crate::config::PoolKey;
use crate::config::PoolSettings;
use crate::error::EngineError;
use crate::error::Failure;
use crate::parser::apply;
use crate::parser::report_of;
use crate::parser::sums_up;
use crate::parser::EvalPayload;
use crate::parser::InfoParser;
use crate::parser::ParserState;
use crate::text::append_decimal;
use crate::text::contains;
use crate::text::decimal_digits;
use crate::text::has_prefix;
use crate::text::has_substring;
use crate::text::starts_with;
use vstd::prelude::*;
use vstd::string::StringExecFns;

verus! {

/// Where a worker stands in its life.
#[derive(Debug, Clone, Copy, PartialEq, Eq, Structural)]
pub enum WorkerPhase {
    /// The engine was started; nothing has been exchanged.
    Spawned,
    /// Handshake: the engine has yet to acknowledge the protocol.
    AwaitingUciOk,
    /// Handshake: the engine has yet to say that it is ready.
    AwaitingReadyOk,
    /// Idle.
    Ready,
    /// A search is under way.
    Searching,
    /// The channel failed; the worker serves no more.
    Failed,
    /// The engine was told to quit and has yet to exit.
    Terminating,
    /// The engine has exited.
    Terminated,
}

impl WorkerPhase {
    /// The handshake is under way.
    pub open spec fn handshaking(self) -> bool {
        self is AwaitingUciOk || self is AwaitingReadyOk
    }

    /// The worker waits for a line of the engine.
    pub open spec fn listening(self) -> bool {
        self.handshaking() || self is Searching
    }

    /// The worker is past its handshake and serves requests.
    pub open spec fn serving(self) -> bool {
        self is Ready || self is Searching
    }

    /// The worker was shut down.
    pub open spec fn closed(self) -> bool {
        self is Terminating || self is Terminated
    }
}

/// What the owner of the channel is to do next.
#[derive(Debug)]
pub enum Step {
    /// Write these commands, in order, one per line; then read one line and
    /// report it.
    Exchange(Vec<String>),
    /// The handshake is over: the worker is ready.
    Initialized,
    /// The search is over, with this result: the worker is ready again.
    Evaluated(EvalPayload),
}

/// The mathematical content of a worker.
pub struct WorkerState {
    pub phase: WorkerPhase,
    /// How many lines of play the engine is told to report.
    pub multi_pv: u32,
    /// The position of the search under way, or of the last one.
    pub fen: Seq<char>,
    /// What the search under way has reported.
    pub gathered: ParserState,
}

/// The command that opens the handshake.
pub open spec fn handshake_opening() -> Seq<Seq<char>> {
    seq!["uci"@]
}

/// The commands that follow the engine's acknowledgement: the number of
/// lines of play to report, then the question whether the engine is ready.
pub open spec fn handshake_settings(multi_pv: u32) -> Seq<Seq<char>> {
    seq!["setoption name MultiPV value "@ + decimal_digits(multi_pv as nat), "isready"@]
}

/// The commands that start a search: a new game, so that nothing of an
/// earlier search is used again; the position; and the search itself.
pub open spec fn search_opening(fen: Seq<char>, key: PoolSettings) -> Seq<Seq<char>> {
    seq!["ucinewgame"@, "position fen "@ + fen, key.go_command()]
}

/// Whether `line` acknowledges the protocol.
pub open spec fn acknowledges(line: Seq<char>) -> bool {
    has_substring(line, "uciok"@)
}

/// Whether `line` says that the engine is ready.
pub open spec fn reports_ready(line: Seq<char>) -> bool {
    has_substring(line, "readyok"@)
}

/// Whether `line` reports on a search under way.
pub open spec fn is_info(line: Seq<char>) -> bool {
    has_prefix(line, "info "@)
}

/// Whether `line` ends a search.
pub open spec fn is_terminal(line: Seq<char>) -> bool {
    !is_info(line) && has_prefix(line, "bestmove"@)
}

impl WorkerState {
    /// A worker whose engine was just started.
    pub open spec fn spawned(multi_pv: u32) -> WorkerState {
        WorkerState {
            phase: WorkerPhase::Spawned,
            multi_pv,
            fen: Seq::empty(),
            gathered: ParserState::initial(),
        }
    }

    /// The state after the handshake was asked for.
    pub open spec fn after_initialize(self) -> WorkerState {
        if self.phase is Spawned {
            WorkerState { phase: WorkerPhase::AwaitingUciOk, ..self }
        } else {
            self
        }
    }

    /// The state after an evaluation of `fen` was asked for.
    pub open spec fn after_evaluate(self, fen: Seq<char>) -> WorkerState {
        if self.phase is Ready {
            WorkerState {
                phase: WorkerPhase::Searching,
                fen,
                gathered: ParserState::initial(),
                ..self
            }
        } else {
            self
        }
    }

    /// The state after the engine's line `line`.
    pub open spec fn after_line(self, line: Seq<char>) -> WorkerState {
        match self.phase {
            WorkerPhase::AwaitingUciOk => if acknowledges(line) {
                WorkerState { phase: WorkerPhase::AwaitingReadyOk, ..self }
            } else {
                self
            },
            WorkerPhase::AwaitingReadyOk => if reports_ready(line) {
                WorkerState { phase: WorkerPhase::Ready, ..self }
            } else {
                self
            },
            WorkerPhase::Searching => if is_info(line) {
                WorkerState { gathered: apply(self.gathered, report_of(line)), ..self }
            } else if is_terminal(line) {
                WorkerState {
                    phase: WorkerPhase::Ready,
                    gathered: ParserState::initial(),
                    ..self
                }
            } else {
                self
            },
            _ => self,
        }
    }

    /// The state after the channel failed.
    pub open spec fn after_failure(self) -> WorkerState {
        if self.phase.listening() {
            WorkerState { phase: WorkerPhase::Failed, ..self }
        } else {
            self
        }
    }

    /// The error that a failed read surfaces as.
    pub open spec fn read_failure(self, detail: Seq<char>) -> Failure {
        match self.phase {
            WorkerPhase::AwaitingUciOk => Failure::Waiting { needle: "uciok"@, detail },
            WorkerPhase::AwaitingReadyOk => Failure::Waiting { needle: "readyok"@, detail },
            WorkerPhase::Searching => Failure::Terminated { detail },
            _ => Failure::OutOfTurn,
        }
    }

    /// The error that a failed write surfaces as.
    pub open spec fn write_failure(self, detail: Seq<char>) -> Failure {
        if self.phase.listening() {
            Failure::Communicate { detail }
        } else {
            Failure::OutOfTurn
        }
    }

    /// The state after the worker was told to shut down.
    pub open spec fn after_shutdown(self) -> WorkerState {
        if self.phase.closed() {
            self
        } else {
            WorkerState { phase: WorkerPhase::Terminating, ..self }
        }
    }

    /// The state after the engine was seen to exit.
    pub open spec fn after_exit(self) -> WorkerState {
        if self.phase is Terminating {
            WorkerState { phase: WorkerPhase::Terminated, ..self }
        } else {
            self
        }
    }
}

/// Whether `step` is what the line `line` asks of a worker in `state`.
pub open spec fn answers_line(state: WorkerState, line: Seq<char>, step: Step) -> bool {
    match state.phase {
        WorkerPhase::AwaitingUciOk => step matches Step::Exchange(send) && send.deep_view() == (
        if acknowledges(line) {
            handshake_settings(state.multi_pv)
        } else {
            Seq::empty()
        }),
        WorkerPhase::AwaitingReadyOk => if reports_ready(line) {
            step is Initialized
        } else {
            step matches Step::Exchange(send) && send.deep_view() == Seq::<Seq<char>>::empty()
        },
        WorkerPhase::Searching => if is_terminal(line) {
            step matches Step::Evaluated(result) && sums_up(result@, state.fen, state.gathered)
                && forall|i: int|
                0 <= i < result@.pvs.len() ==> (#[trigger] result@.pvs[i]).exclusive()
        } else {
            step matches Step::Exchange(send) && send.deep_view() == Seq::<Seq<char>>::empty()
        },
        _ => false,
    }
}

/// One worker's side of the protocol.
pub struct StockfishWorker {
    phase: WorkerPhase,
    multi_pv: u32,
    fen: String,
    parser: InfoParser,
}

impl View for StockfishWorker {
    type V = WorkerState;

    closed spec fn view(&self) -> WorkerState {
        WorkerState {
            phase: self.phase,
            multi_pv: self.multi_pv,
            fen: self.fen@,
            gathered: self.parser@,
        }
    }
}

impl StockfishWorker {
    /// The worker for an engine that was just started and is to report
    /// `multi_pv` lines of play.
    pub fn new(multi_pv: u32) -> (out: Self)
        ensures
            out@ == WorkerState::spawned(multi_pv),
    {
        StockfishWorker {
            phase: WorkerPhase::Spawned,
            multi_pv,
            fen: String::new(),
            parser: InfoParser::new(),
        }
    }

    /// Where the worker stands.
    pub fn phase(&self) -> (out: WorkerPhase)
        ensures
            out == self@.phase,
    {
        self.phase
    }

    /// Opens the handshake. Only a worker that was just spawned can; any
    /// other is left as it is.
    pub fn initialize(&mut self) -> (out: Result<Step, EngineError>)
        ensures
            final(self)@ == old(self)@.after_initialize(),
            old(self)@.phase is Spawned ==> (out matches Ok(Step::Exchange(send))
                && send.deep_view() == handshake_opening()),
            !(old(self)@.phase is Spawned) ==> (out matches Err(e) && e@ == Failure::OutOfTurn),
    {
        match self.phase {
            WorkerPhase::Spawned => {
                self.phase = WorkerPhase::AwaitingUciOk;
                let mut send: Vec<String> = Vec::new();
                send.push(String::from_str("uci"));
                assert(send.deep_view() =~= handshake_opening());
                Ok(Step::Exchange(send))
            },
            _ => Err(EngineError::OutOfTurn),
        }
    }

    /// Starts the evaluation of `fen` under `key`. Only a ready worker can;
    /// any other is left as it is.
    pub fn evaluate(&mut self, fen: &str, key: &PoolKey) -> (out: Result<Step, EngineError>)
        ensures
            final(self)@ == old(self)@.after_evaluate(fen@),
            old(self)@.phase is Ready ==> (out matches Ok(Step::Exchange(send))
                && send.deep_view() == search_opening(fen@, key@)),
            !(old(self)@.phase is Ready) ==> (out matches Err(e) && e@ == Failure::OutOfTurn),
    {
        match self.phase {
            WorkerPhase::Ready => {
                self.phase = WorkerPhase::Searching;
                self.fen = String::from_str(fen);
                self.parser = InfoParser::new();
                let mut position = String::from_str("position fen ");
                position.append(fen);
                let mut send: Vec<String> = Vec::new();
                send.push(String::from_str("ucinewgame"));
                send.push(position);
                send.push(Self::go_command(key));
                assert(send.deep_view() =~= search_opening(fen@, key@));
                Ok(Step::Exchange(send))
            },
            _ => Err(EngineError::OutOfTurn),
        }
    }

    /// The command that starts a search under `key`.
    pub fn go_command(key: &PoolKey) -> (out: String)
        ensures
            out@ == key@.go_command(),
    {
        key.go_command()
    }

    /// Takes in one line of the engine. A worker that waits for none is left
    /// as it is.
    pub fn on_line(&mut self, line: &str) -> (out: Result<Step, EngineError>)
        ensures
            final(self)@ == old(self)@.after_line(line@),
            old(self)@.phase.listening() ==> (out matches Ok(step) && answers_line(
                old(self)@,
                line@,
                step,
            )),
            !old(self)@.phase.listening() ==> (out matches Err(e) && e@ == Failure::OutOfTurn),
    {
        let nothing: Vec<String> = Vec::new();
        assert(nothing.deep_view() =~= Seq::<Seq<char>>::empty());
        match self.phase {
            WorkerPhase::AwaitingUciOk => {
                if contains(line, "uciok") {
                    self.phase = WorkerPhase::AwaitingReadyOk;
                    let mut option = String::from_str("setoption name MultiPV value ");
                    append_decimal(&mut option, self.multi_pv as u64);
                    let mut send: Vec<String> = Vec::new();
                    send.push(option);
                    send.push(String::from_str("isready"));
                    assert(send.deep_view() =~= handshake_settings(self.multi_pv));
                    Ok(Step::Exchange(send))
                } else {
                    Ok(Step::Exchange(nothing))
                }
            },
            WorkerPhase::AwaitingReadyOk => {
                if contains(line, "readyok") {
                    self.phase = WorkerPhase::Ready;
                    Ok(Step::Initialized)
                } else {
                    Ok(Step::Exchange(nothing))
                }
            },
            WorkerPhase::Searching => {
                if starts_with(line, "info ") {
                    self.parser.consume(line);
                    Ok(Step::Exchange(nothing))
                } else if starts_with(line, "bestmove") {
                    let mut parser = InfoParser::new();
                    core::mem::swap(&mut self.parser, &mut parser);
                    self.phase = WorkerPhase::Ready;
                    Ok(Step::Evaluated(parser.into_payload(self.fen.as_str())))
                } else {
                    Ok(Step::Exchange(nothing))
                }
            },
            _ => Err(EngineError::OutOfTurn),
        }
    }

    /// Takes in that a read from the channel failed, or that the channel was
    /// found closed; `detail` says what went wrong. Gives the error that the
    /// request ends with. The worker serves no more.
    pub fn read_failed(&mut self, detail: &str) -> (out: EngineError)
        ensures
            final(self)@ == old(self)@.after_failure(),
            out@ == old(self)@.read_failure(detail@),
    {
        let out = match self.phase {
            WorkerPhase::AwaitingUciOk => EngineError::Waiting {
                needle: String::from_str("uciok"),
                detail: String::from_str(detail),
            },
            WorkerPhase::AwaitingReadyOk => EngineError::Waiting {
                needle: String::from_str("readyok"),
                detail: String::from_str(detail),
            },
            WorkerPhase::Searching => EngineError::Terminated { detail: String::from_str(detail) },
            _ => EngineError::OutOfTurn,
        };
        self.fail();
        out
    }

    /// Takes in that a command could not be written; `detail` says what went
    /// wrong. Gives the error that the request ends with. The worker serves
    /// no more.
    pub fn write_failed(&mut self, detail: &str) -> (out: EngineError)
        ensures
            final(self)@ == old(self)@.after_failure(),
            out@ == old(self)@.write_failure(detail@),
    {
        let out = match self.phase {
            WorkerPhase::AwaitingUciOk | WorkerPhase::AwaitingReadyOk | WorkerPhase::Searching => {
                EngineError::Communicate { detail: String::from_str(detail) }
            },
            _ => EngineError::OutOfTurn,
        };
        self.fail();
        out
    }

    fn fail(&mut self)
        ensures
            final(self)@ == old(self)@.after_failure(),
    {
        match self.phase {
            WorkerPhase::AwaitingUciOk | WorkerPhase::AwaitingReadyOk | WorkerPhase::Searching => {
                self.phase = WorkerPhase::Failed;
            },
            _ => {},
        }
    }

    /// Shuts the worker down, whatever its phase. The first call gives the
    /// command to write, which may fail unnoticed, before the engine's exit
    /// is waited for; every later call gives nothing.
    pub fn shutdown(&mut self) -> (out: Option<String>)
        ensures
            final(self)@ == old(self)@.after_shutdown(),
            old(self)@.phase.closed() ==> out is None,
            !old(self)@.phase.closed() ==> (out matches Some(command) && command@ == "quit"@),
    {
        match self.phase {
            WorkerPhase::Terminating | WorkerPhase::Terminated => None,
            _ => {
                self.phase = WorkerPhase::Terminating;
                Some(String::from_str("quit"))
            },
        }
    }

    /// Takes in that the engine has exited after its shutdown.
    pub fn exited(&mut self)
        ensures
            final(self)@ == old(self)@.after_exit(),
    {
        match self.phase {
            WorkerPhase::Terminating => {
                self.phase = WorkerPhase::Terminated;
            },
            _ => {},
        }
    }
}

// ---------------------------------------------------------------------------
// The life of a worker
// ---------------------------------------------------------------------------

/// What can happen to a worker.
pub enum WorkerEvent {
    /// The handshake is asked for.
    Initialize,
    /// The evaluation of a position is asked for.
    Evaluate(Seq<char>),
    /// The engine wrote a line.
    Line(Seq<char>),
    /// The channel failed.
    Failure,
    /// The worker is told to shut down.
    Shutdown,
    /// The engine is seen to exit.
    Exit,
}

/// The state after `event`.
pub open spec fn step(state: WorkerState, event: WorkerEvent) -> WorkerState {
    match event {
        WorkerEvent::Initialize => state.after_initialize(),
        WorkerEvent::Evaluate(fen) => state.after_evaluate(fen),
        WorkerEvent::Line(line) => state.after_line(line),
        WorkerEvent::Failure => state.after_failure(),
        WorkerEvent::Shutdown => state.after_shutdown(),
        WorkerEvent::Exit => state.after_exit(),
    }
}

/// The state after `events`, in order.
pub open spec fn run(state: WorkerState, events: Seq<WorkerEvent>) -> WorkerState
    decreases events.len(),
{
    if events.len() == 0 {
        state
    } else {
        step(run(state, events.drop_last()), events.last())
    }
}

/// Once past its handshake a worker is either ready or searching, until its
/// channel fails or it is shut down.
pub proof fn lemma_serving_until_failure_or_shutdown(
    state: WorkerState,
    events: Seq<WorkerEvent>,
)
    requires
        state.phase.serving(),
        forall|i: int|
            0 <= i < events.len() ==> !((#[trigger] events[i]) is Failure) && !(events[i]
                is Shutdown),
    ensures
        run(state, events).phase.serving(),
    decreases events.len(),
{
    if events.len() > 0 {
        let earlier = events.drop_last();
        assert forall|i: int| 0 <= i < earlier.len() implies !((#[trigger] earlier[i])
            is Failure) && !(earlier[i] is Shutdown) by {
            assert(earlier[i] == events[i]);
        }
        lemma_serving_until_failure_or_shutdown(state, earlier);
        assert(events.last() == events[events.len() - 1]);
    }
}

/// A worker whose channel has failed stays failed until it is shut down.
pub proof fn lemma_failed_until_shutdown(state: WorkerState, events: Seq<WorkerEvent>)
    requires
        state.phase is Failed,
        forall|i: int| 0 <= i < events.len() ==> !((#[trigger] events[i]) is Shutdown),
    ensures
        run(state, events) == state,
    decreases events.len(),
{
    if events.len() > 0 {
        let earlier = events.drop_last();
        assert forall|i: int| 0 <= i < earlier.len() implies !((#[trigger] earlier[i])
            is Shutdown) by {
            assert(earlier[i] == events[i]);
        }
        lemma_failed_until_shutdown(state, earlier);
        assert(events.last() == events[events.len() - 1]);
    }
}

/// A worker that was shut down never serves again, and one whose engine has
/// exited never changes.
pub proof fn lemma_shutdown_is_final(state: WorkerState, events: Seq<WorkerEvent>)
    requires
        state.phase.closed(),
    ensures
        run(state, events).phase.closed(),
        state.phase is Terminated ==> run(state, events) == state,
    decreases events.len(),
{
    if events.len() > 0 {
        lemma_shutdown_is_final(state, events.drop_last());
    }
}

/// The one way out of the handshake into service is the engine's two
/// acknowledgements, in order: nothing else makes a spawned worker ready.
pub proof fn lemma_ready_only_by_handshake(state: WorkerState, event: WorkerEvent)
    requires
        !state.phase.serving(),
        step(state, event).phase.serving(),
    ensures
        state.phase is AwaitingReadyOk,
        event matches WorkerEvent::Line(line) && reports_ready(line),
        step(state, event).phase is Ready,
{
}


} // verus!
