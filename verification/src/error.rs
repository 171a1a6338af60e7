//! The failures of the evaluation subsystem.

use vstd::prelude::*;
use vstd::string::StringExecFns;

verus! {

/// Why a worker could not be made, or a request could not be answered. A
/// failed request yields no evaluation at all.
#[derive(Debug)]
pub enum EngineError {
    /// The engine could not be started.
    Launch { engine_path: String, detail: String },
    /// A command could not be written to the engine.
    Communicate { detail: String },
    /// The channel failed while the handshake waited for `needle`.
    Waiting { needle: String, detail: String },
    /// The channel failed in the middle of a search.
    Terminated { detail: String },
    /// The worker was asked for something that its phase does not allow.
    OutOfTurn,
}

/// The mathematical content of an [`EngineError`].
pub enum Failure {
    Launch { engine_path: Seq<char>, detail: Seq<char> },
    Communicate { detail: Seq<char> },
    Waiting { needle: Seq<char>, detail: Seq<char> },
    Terminated { detail: Seq<char> },
    OutOfTurn,
}

impl Failure {
    /// The failure in words.
    pub open spec fn message(self) -> Seq<char> {
        match self {
            Failure::Launch { engine_path, detail } => "Unable to launch Stockfish at '"@
                + engine_path + "': "@ + detail,
            Failure::Communicate { detail } => "Failed to communicate with Stockfish: "@ + detail,
            Failure::Waiting { needle, detail } => "Error waiting for '"@ + needle + "': "@
                + detail,
            Failure::Terminated { detail } => "Stockfish terminated unexpectedly: "@ + detail,
            Failure::OutOfTurn => "Stockfish worker used out of turn"@,
        }
    }
}

impl View for EngineError {
    type V = Failure;

    open spec fn view(&self) -> Failure {
        match self {
            EngineError::Launch { engine_path, detail } => Failure::Launch {
                engine_path: engine_path@,
                detail: detail@,
            },
            EngineError::Communicate { detail } => Failure::Communicate { detail: detail@ },
            EngineError::Waiting { needle, detail } => Failure::Waiting {
                needle: needle@,
                detail: detail@,
            },
            EngineError::Terminated { detail } => Failure::Terminated { detail: detail@ },
            EngineError::OutOfTurn => Failure::OutOfTurn,
        }
    }
}

impl EngineError {
    /// The failure to start the engine at `engine_path`; `detail` says what
    /// went wrong.
    pub fn launch(engine_path: &str, detail: &str) -> (out: Self)
        ensures
            out@ == (Failure::Launch { engine_path: engine_path@, detail: detail@ }),
    {
        EngineError::Launch {
            engine_path: String::from_str(engine_path),
            detail: String::from_str(detail),
        }
    }

    /// The failure in words.
    pub fn message(&self) -> (out: String)
        ensures
            out@ == self@.message(),
    {
        match self {
            EngineError::Launch { engine_path, detail } => {
                let mut out = String::from_str("Unable to launch Stockfish at '");
                out.append(engine_path.as_str());
                out.append("': ");
                out.append(detail.as_str());
                out
            },
            EngineError::Communicate { detail } => {
                let mut out = String::from_str("Failed to communicate with Stockfish: ");
                out.append(detail.as_str());
                out
            },
            EngineError::Waiting { needle, detail } => {
                let mut out = String::from_str("Error waiting for '");
                out.append(needle.as_str());
                out.append("': ");
                out.append(detail.as_str());
                out
            },
            EngineError::Terminated { detail } => {
                let mut out = String::from_str("Stockfish terminated unexpectedly: ");
                out.append(detail.as_str());
                out
            },
            EngineError::OutOfTurn => String::from_str("Stockfish worker used out of turn"),
        }
    }
}

} // verus!
