//! Chess repertoire tools with a verified core.
//!
//! The heart of the crate is the evaluation of positions by a chess engine
//! that speaks the UCI protocol over lines of text:
//!
//! * [`text`] holds the text primitives: tokens, numbers, prefixes.
//! * [`parser`] gathers what the engine's `info` lines report, [`replay`] and
//!   [`fields`] state what a run of lines, and the order of fields within a
//!   line, come to.
//! * [`worker`] is one engine's side of the protocol as a state machine,
//!   [`pool`] deals requests out to a fixed row of workers, and [`registry`]
//!   keeps one pool per [`config::PoolKey`].
//!
//! Around it stand the tools that work on repertoires: [`fen`] and [`chess`]
//! for positions and moves, [`analysis`] and [`order`] for move frequencies,
//! [`split`] for cutting a repertoire into parts, [`pgn`] and [`mainline`]
//! for game records, and [`study`] for imports into a remote study.
//!
//! Nothing in this crate reads a file, starts a process or opens a socket.
//! Every function is verified against its contract, except the few in
//! [`chess`] that call the `shakmaty` crate, whose contracts are believed.

pub mod analysis;
pub mod chess;
pub mod config;
pub mod error;
pub mod fen;
pub mod fields;
pub mod mainline;
pub mod order;
pub mod parser;
pub mod pgn;
pub mod pool;
pub mod registry;
pub mod replay;
pub mod split;
pub mod study;
pub mod text;
pub mod worker;
