//! Tickets, and what one advancement of a ticket hands back.

use vstd::prelude::*;

verus! {

/// Where a ticket is in its life: open until it completes or is rejected.
#[derive(Clone, Copy, Debug, PartialEq, Eq, Structural)]
pub enum TicketStatus {
    Open,
    Closed,
    Rejected,
}

/// The kind of a user-facing action that an advancement asks for.
#[derive(Clone, Copy, Debug, PartialEq, Eq, Structural)]
pub enum NewUserTicketType {
    ApproveRequest,
    Notify,
    Completion,
}

/// A user-facing action: an approval request or a notification for
/// `username`, or the completion of the ticket (no username).
#[derive(Debug)]
pub struct NewUserTicket {
    pub type_: NewUserTicketType,
    pub ticket_id: i32,
    pub node: usize,
    pub username: Option<String>,
}

/// External tasks to hand to the callback service once the advancement
/// that produced them has been committed.
#[derive(Debug)]
pub struct CallbackTask {
    pub ticket_id: i32,
    pub node: usize,
    /// Whether the payload of the triggering request goes with the tasks.
    pub with_payload: bool,
    pub callbacks: Vec<String>,
}

/// What firing a single step produced.
#[derive(Debug)]
pub struct SingleExecState {
    pub status: TicketStatus,
    pub new_ticket: Option<NewUserTicket>,
    pub completable_steps: Vec<usize>,
    pub task: Option<CallbackTask>,
}

/// Why an advancement failed; any of these aborts the whole advancement.
#[derive(Clone, Copy, Debug, PartialEq, Eq, Structural)]
pub enum ExecuteErr {
    InvalidTicket,
    FailedToExecute,
    InvalidEvent,
    FailedToReadProcessData,
    FailedToLog,
    FailedToNotify,
    FailedToExecuteCallback,
}

/// One live run of a process. Times are milliseconds since the Unix epoch;
/// ids are the 128-bit values of the store's UUIDs.
#[derive(Debug)]
pub struct Ticket {
    pub id: i32,
    pub owner_id: u128,
    pub process_id: String,
    pub log_id: u128,
    pub is_public: bool,
    pub created_at: i64,
    pub updated_at: i64,
    pub status: TicketStatus,
    /// Bit `k` is set when step `k` is done.
    pub complete: u64,
}

/// `t` with a new completion mask and a new update time.
pub open spec fn touched(t: Ticket, complete: u64, updated_at: i64) -> Ticket {
    Ticket { complete, updated_at, ..t }
}

} // verus!
