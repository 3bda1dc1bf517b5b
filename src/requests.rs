//! The requests and answers of the ticket and role endpoints, as plain
//! values. Ids are the 128-bit values of UUIDs; times are milliseconds since
//! the Unix epoch.

use vstd::prelude::*;
use crate::state::JsonObject;
use crate::ticket::TicketStatus;

verus! {

/// A request to start a run of process `process_id`.
#[derive(Debug)]
pub struct CreateTicket {
    pub process_id: String,
    pub owner_id: u128,
    pub owner_name: String,
    pub is_public: bool,
    pub data: Option<JsonObject>,
}

/// A user's answer on step `node` of a ticket; `status` is whether they
/// accepted.
#[derive(Debug)]
pub struct UpdateTicket {
    pub ticket_id: i32,
    pub user_id: u128,
    pub status: bool,
    pub node: i32,
    pub data: Option<JsonObject>,
}

/// A ticket waiting on a user.
#[derive(Debug)]
pub struct CurrentTicket {
    pub type_: String,
    pub ticketid: i32,
    pub active: bool,
    pub node_number: i32,
    pub process_id: String,
    pub owner_name: String,
}

/// A ticket that a user owns.
#[derive(Debug)]
pub struct OwnTicket {
    pub id: i32,
    pub process_id: String,
    pub is_public: bool,
    pub created_at: i64,
    pub updated_at: i64,
    pub status: String,
}

/// The tickets of one user: those waiting on them, and their own.
#[derive(Debug)]
pub struct UserTickets {
    pub current_tickets: Vec<CurrentTicket>,
    pub own_tickets: Vec<OwnTicket>,
}

/// A request for the tickets of the user whose id is written in `userid`.
#[derive(Debug)]
pub struct GetUserTicketsReq {
    pub userid: String,
}

/// A request to define a role.
#[derive(Debug)]
pub struct CreateRole {
    pub role_: String,
}

/// A stored role.
#[derive(Debug)]
pub struct RoleDef {
    pub id: i32,
    pub role_: String,
}

/// The names of the roles, in the order stored.
pub fn role_names(defs: &Vec<RoleDef>) -> (r: Vec<String>)
    ensures
        r@ == defs@.map_values(|d: RoleDef| d.role_),
{
    let mut r: Vec<String> = Vec::new();
    let mut i: usize = 0;
    while i < defs.len()
        invariant
            i <= defs@.len(),
            r@ == defs@.take(i as int).map_values(|d: RoleDef| d.role_),
        decreases defs.len() - i,
    {
        r.push(defs[i].role_.clone());
        i = i + 1;
        proof {
            assert(defs@.take(i as int).map_values(|d: RoleDef| d.role_) =~= defs@.take(
                (i - 1) as int,
            ).map_values(|d: RoleDef| d.role_).push(defs@[i - 1].role_));
        }
    }
    assert(defs@.take(i as int) =~= defs@);
    r
}

/// The status of a ticket as the store writes it.
pub fn status_name(s: TicketStatus) -> (r: String)
    ensures
        r@ == status_text(s),
{
    proof {
        reveal_strlit("open");
        reveal_strlit("closed");
        reveal_strlit("rejected");
    }
    match s {
        TicketStatus::Open => "open".to_owned(),
        TicketStatus::Closed => "closed".to_owned(),
        TicketStatus::Rejected => "rejected".to_owned(),
    }
}

pub open spec fn status_text(s: TicketStatus) -> Seq<char> {
    match s {
        TicketStatus::Open => "open"@,
        TicketStatus::Closed => "closed"@,
        TicketStatus::Rejected => "rejected"@,
    }
}

/// The status that the store wrote as `name`, if any.
pub fn parse_status(name: &String) -> (r: Option<TicketStatus>)
    ensures
        r matches Some(s) ==> status_text(s) == name@,
        r is None ==> forall|s: TicketStatus| status_text(s) != name@,
{
    proof {
        reveal_strlit("open");
        reveal_strlit("closed");
        reveal_strlit("rejected");
    }
    if *name == "open".to_owned() {
        Some(TicketStatus::Open)
    } else if *name == "closed".to_owned() {
        Some(TicketStatus::Closed)
    } else if *name == "rejected".to_owned() {
        Some(TicketStatus::Rejected)
    } else {
        proof {
            assert forall|s: TicketStatus| status_text(s) != name@ by {
                match s {
                    TicketStatus::Open => {},
                    TicketStatus::Closed => {},
                    TicketStatus::Rejected => {},
                }
            }
        }
        None
    }
}

} // verus!
