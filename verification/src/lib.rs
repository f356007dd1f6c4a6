//! Live-game SMS notification library.
//!
//! The library models one tracked game as a state machine (`game::Game`)
//! that is fed plain values — milestone records, fetched preview articles,
//! clock readings — by a thin runtime, and decides every score change,
//! lifecycle transition and notification text. The surrounding runtime does
//! nothing but transport: it polls the stats feed, sends the composed
//! messages, and sleeps between ticks.

pub mod cli;
pub mod config;
pub mod game;
pub mod model;
pub mod numerals;
pub mod text;
pub mod twilio;
