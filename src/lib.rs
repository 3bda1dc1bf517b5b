//! A ticket-driven process engine: process graphs of steps with
//! prerequisites, a completion mask per ticket, and the rules that advance a
//! ticket when a user or a callback acts on one of its steps.

pub mod mask;
pub mod process;
pub mod ticket;
pub mod engine;
pub mod orchestrator;
pub mod state;
pub mod requests;

