//! The decisions around an advancement: what the store must do to create
//! or update a ticket, and which status the ticket ends in. The caller runs
//! the store operations in one transaction, commits, and only then hands
//! out the callback tasks.

use vstd::prelude::*;
use crate::engine::{Advancement, advanced, update_internal};
use crate::process::ProcessGraph;
use crate::ticket::{CallbackTask, ExecuteErr, NewUserTicket, NewUserTicketType, Ticket, TicketStatus};

verus! {

/// Whom a row of active tickets belongs to: a user id, or a user name that
/// the store resolves.
#[derive(Debug)]
pub enum UserRef {
    Id(u128),
    Name(String),
}

/// Why a user holds a ticket.
#[derive(Clone, Copy, Debug, PartialEq, Eq, Structural)]
pub enum RowKind {
    Own,
    Approve,
    Notify,
}

/// One write to the store.
#[derive(Debug)]
pub enum StoreOp {
    /// Add an active row for `user` on the ticket at `node`.
    AddRow { user: UserRef, ticket_id: i32, node: usize, kind: RowKind },
    /// Add a notification about the ticket for the user named `user`.
    Notification { user: String, ticket_id: i32 },
    /// Mark the rows of user `user_id` on the ticket inactive.
    DeactivateUser { ticket_id: i32, user_id: u128 },
    /// Mark every row of the ticket inactive.
    DeactivateAll { ticket_id: i32 },
}

/// Why a ticket could not be updated.
#[derive(Clone, Copy, Debug, PartialEq, Eq, Structural)]
pub enum UpdateError {
    /// The ticket is no longer open.
    Forbidden,
    /// The advancement failed.
    Engine(ExecuteErr),
}

/// What to write to the store, in order, and the actions and callback tasks
/// of the advancement, if there was one.
#[derive(Debug)]
pub struct Plan {
    pub ops: Vec<StoreOp>,
    pub actions: Vec<NewUserTicket>,
    pub tasks: Vec<CallbackTask>,
}

/// The store writes that persist one user action.
pub open spec fn action_ops(a: NewUserTicket) -> Seq<StoreOp> {
    match a.type_ {
        NewUserTicketType::Completion => seq![StoreOp::DeactivateAll { ticket_id: a.ticket_id }],
        NewUserTicketType::ApproveRequest => match a.username {
            Some(u) => seq![
                StoreOp::AddRow {
                    user: UserRef::Name(u),
                    ticket_id: a.ticket_id,
                    node: a.node,
                    kind: RowKind::Approve,
                },
            ],
            None => Seq::empty(),
        },
        NewUserTicketType::Notify => match a.username {
            Some(u) => seq![
                StoreOp::AddRow {
                    user: UserRef::Name(u),
                    ticket_id: a.ticket_id,
                    node: a.node,
                    kind: RowKind::Notify,
                },
                StoreOp::Notification { user: u, ticket_id: a.ticket_id },
            ],
            None => Seq::empty(),
        },
    }
}

/// The store writes that persist `actions`, in order.
pub open spec fn actions_ops(actions: Seq<NewUserTicket>) -> Seq<StoreOp>
    decreases actions.len(),
{
    if actions.len() == 0 {
        Seq::empty()
    } else {
        actions_ops(actions.drop_last()) + action_ops(actions.last())
    }
}

pub open spec fn has_completion(actions: Seq<NewUserTicket>) -> bool {
    exists|i: int| 0 <= i < actions.len() && #[trigger] actions[i].type_ == NewUserTicketType::Completion
}

/// The status after persisting `actions`: closed once one completes the ticket.
pub open spec fn status_after(s: TicketStatus, actions: Seq<NewUserTicket>) -> TicketStatus {
    if has_completion(actions) {
        TicketStatus::Closed
    } else {
        s
    }
}

pub open spec fn with_status(t: Ticket, status: TicketStatus) -> Ticket {
    Ticket { status, ..t }
}

/// A status may move only from open, and never back to open.
pub open spec fn status_step(from: TicketStatus, to: TicketStatus) -> bool {
    from == to || (from == TicketStatus::Open && to != TicketStatus::Open)
}

fn clone_name(u: &Option<String>) -> (r: Option<String>)
    ensures
        r == *u,
{
    match u {
        Some(s) => Some(s.clone()),
        None => None,
    }
}

/// The store writes that persist `actions`; a completion closes the ticket.
pub fn persist_actions(ticket: &mut Ticket, actions: &Vec<NewUserTicket>) -> (ops: Vec<StoreOp>)
    ensures
        ops@ == actions_ops(actions@),
        *final(ticket) == with_status(*old(ticket), status_after(old(ticket).status, actions@)),
{
    let mut ops: Vec<StoreOp> = Vec::new();
    let mut i: usize = 0;
    while i < actions.len()
        invariant
            i <= actions@.len(),
            ops@ == actions_ops(actions@.take(i as int)),
            *ticket == with_status(*old(ticket), status_after(old(ticket).status, actions@.take(i as int))),
        decreases actions.len() - i,
    {
        let a = &actions[i];
        let ghost before = ops@;
        match a.type_ {
            NewUserTicketType::Completion => {
                ops.push(StoreOp::DeactivateAll { ticket_id: a.ticket_id });
                ticket.status = TicketStatus::Closed;
            },
            NewUserTicketType::ApproveRequest => {
                match clone_name(&a.username) {
                    Some(u) => ops.push(
                        StoreOp::AddRow { user: UserRef::Name(u), ticket_id: a.ticket_id, node: a.node, kind: RowKind::Approve },
                    ),
                    None => {},
                }
            },
            NewUserTicketType::Notify => {
                match clone_name(&a.username) {
                    Some(u) => {
                        let v = u.clone();
                        ops.push(StoreOp::AddRow { user: UserRef::Name(u), ticket_id: a.ticket_id, node: a.node, kind: RowKind::Notify });
                        ops.push(StoreOp::Notification { user: v, ticket_id: a.ticket_id });
                    },
                    None => {},
                }
            },
        }
        proof {
            let t = actions@.take(i as int + 1);
            assert(t.drop_last() =~= actions@.take(i as int));
            assert(t.last() == actions@[i as int]);
            assert(ops@ =~= before + action_ops(actions@[i as int]));
            if has_completion(t) && !has_completion(actions@.take(i as int)) {
                let j = choose|j: int| 0 <= j < t.len() && #[trigger] t[j].type_ == NewUserTicketType::Completion;
                if j < i {
                    assert(actions@.take(i as int)[j] == t[j]);
                }
            }
            if has_completion(actions@.take(i as int)) {
                let j = choose|j: int| 0 <= j < i && #[trigger] actions@.take(i as int)[j].type_ == NewUserTicketType::Completion;
                assert(t[j] == actions@.take(i as int)[j]);
            }
            if a.type_ == NewUserTicketType::Completion {
                assert(t[i as int].type_ == NewUserTicketType::Completion);
            }
        }
        i = i + 1;
    }
    assert(actions@.take(i as int) =~= actions@);
    ops
}

/// What an update of `t0` to `t1` returning `r` must satisfy, for a request
/// by `user_id` on step `node` at time `now`.
///
/// A ticket that is no longer open is not touched. A rejection closes the
/// caller's row and every other row of the ticket and marks it rejected,
/// with no advancement. An acceptance closes the caller's row, advances the
/// ticket, and persists what the advancement asked for.
pub open spec fn updated(
    g: ProcessGraph,
    t0: Ticket,
    user_id: u128,
    accepted: bool,
    node: usize,
    with_payload: bool,
    now: i64,
    r: Result<Plan, UpdateError>,
    t1: Ticket,
) -> bool {
    if t0.status != TicketStatus::Open {
        r == Err::<Plan, UpdateError>(UpdateError::Forbidden) && t1 == t0
    } else if !accepted {
        &&& r matches Ok(p) && p.ops@ == seq![
            StoreOp::DeactivateUser { ticket_id: t0.id, user_id },
            StoreOp::DeactivateAll { ticket_id: t0.id },
        ] && p.actions@.len() == 0 && p.tasks@.len() == 0
        &&& t1 == with_status(t0, TicketStatus::Rejected)
    } else if node >= g@.len() {
        r == Err::<Plan, UpdateError>(UpdateError::Engine(ExecuteErr::InvalidTicket)) && t1 == t0
    } else {
        match r {
            Ok(p) => exists|tm: Ticket|
                {
                    &&& advanced(
                        g@,
                        t0,
                        node,
                        with_payload,
                        now,
                        Ok(Advancement { actions: p.actions, tasks: p.tasks }),
                        tm,
                    )
                    &&& #[trigger] with_status(tm, status_after(tm.status, p.actions@)) == t1
                    &&& p.ops@ == seq![StoreOp::DeactivateUser { ticket_id: t0.id, user_id }]
                        + actions_ops(p.actions@)
                },
            Err(UpdateError::Engine(e)) => advanced(g@, t0, node, with_payload, now, Err(e), t1),
            Err(UpdateError::Forbidden) => false,
        }
    }
}

/// Decides an update of `ticket` by user `user_id` on step `node` at time
/// `now`: what to write to the store, and the new state of the ticket.
pub fn plan_update(
    ticket: &mut Ticket,
    g: &ProcessGraph,
    user_id: u128,
    accepted: bool,
    node: usize,
    has_payload: bool,
    now: i64,
) -> (r: Result<Plan, UpdateError>)
    requires
        g.wf(),
    ensures
        updated(*g, *old(ticket), user_id, accepted, node, has_payload, now, r, *final(ticket)),
        status_step(old(ticket).status, final(ticket).status),
{
    if ticket.status != TicketStatus::Open {
        return Err(UpdateError::Forbidden);
    }
    let tid = ticket.id;
    if !accepted {
        ticket.status = TicketStatus::Rejected;
        let mut ops: Vec<StoreOp> = Vec::new();
        ops.push(StoreOp::DeactivateUser { ticket_id: tid, user_id });
        ops.push(StoreOp::DeactivateAll { ticket_id: tid });
        proof {
            assert(ops@ =~= seq![
                StoreOp::DeactivateUser { ticket_id: tid, user_id },
                StoreOp::DeactivateAll { ticket_id: tid },
            ]);
        }
        return Ok(Plan { ops, actions: Vec::new(), tasks: Vec::new() });
    }
    if node >= g.len() {
        return Err(UpdateError::Engine(ExecuteErr::InvalidTicket));
    }
    let ghost t0 = *ticket;
    match update_internal(ticket, g, node, has_payload, now) {
        Err(e) => {
            proof {
                crate::engine::lemma_advance_keeps_status(g@, t0, node, has_payload, now, Err(e), *ticket);
            }
            Err(UpdateError::Engine(e))
        },
        Ok(adv) => {
            let ghost tm = *ticket;
            proof {
                crate::engine::lemma_advance_keeps_status(g@, t0, node, has_payload, now, Ok(adv), tm);
            }
            let Advancement { actions, tasks } = adv;
            let mut ops: Vec<StoreOp> = Vec::new();
            ops.push(StoreOp::DeactivateUser { ticket_id: tid, user_id });
            let mut more = persist_actions(ticket, &actions);
            ops.append(&mut more);
            proof {
                assert(ops@ =~= seq![StoreOp::DeactivateUser { ticket_id: tid, user_id }] + actions_ops(actions@));
                assert(with_status(tm, status_after(tm.status, actions@)) == *ticket);
            }
            Ok(Plan { ops, actions, tasks })
        },
    }
}

/// What a creation of `t0` into `t1` returning `r` must satisfy: the owner
/// gets a row of its own at step 0, the ticket advances from step 0, and
/// what the advancement asked for is persisted.
pub open spec fn created(
    g: ProcessGraph,
    t0: Ticket,
    with_payload: bool,
    now: i64,
    r: Result<Plan, ExecuteErr>,
    t1: Ticket,
) -> bool {
    match r {
        Ok(p) => exists|tm: Ticket|
            {
                &&& advanced(
                    g@,
                    t0,
                    0,
                    with_payload,
                    now,
                    Ok(Advancement { actions: p.actions, tasks: p.tasks }),
                    tm,
                )
                &&& #[trigger] with_status(tm, status_after(tm.status, p.actions@)) == t1
                &&& p.ops@ == seq![
                    StoreOp::AddRow {
                        user: UserRef::Id(t0.owner_id),
                        ticket_id: t0.id,
                        node: 0,
                        kind: RowKind::Own,
                    },
                ] + actions_ops(p.actions@)
            },
        Err(e) => advanced(g@, t0, 0, with_payload, now, Err(e), t1),
    }
}

/// Decides the creation of a freshly stored `ticket` at time `now`: its
/// first step fires on behalf of its owner.
pub fn plan_create(ticket: &mut Ticket, g: &ProcessGraph, has_payload: bool, now: i64) -> (r: Result<
    Plan,
    ExecuteErr,
>)
    requires
        g.wf(),
    ensures
        r is Ok,
        created(*g, *old(ticket), has_payload, now, r, *final(ticket)),
{
    let ghost t0 = *ticket;
    let tid = ticket.id;
    let owner = ticket.owner_id;
    match update_internal(ticket, g, 0, has_payload, now) {
        Err(e) => {
            proof {
                crate::engine::lemma_initiate_never_fails(*g, t0, has_payload, now, Err(e), *ticket);
            }
            Err(e)
        },
        Ok(adv) => {
            let ghost tm = *ticket;
            let Advancement { actions, tasks } = adv;
            let mut ops: Vec<StoreOp> = Vec::new();
            ops.push(StoreOp::AddRow { user: UserRef::Id(owner), ticket_id: tid, node: 0, kind: RowKind::Own });
            let mut more = persist_actions(ticket, &actions);
            ops.append(&mut more);
            proof {
                assert(ops@ =~= seq![
                    StoreOp::AddRow { user: UserRef::Id(owner), ticket_id: tid, node: 0, kind: RowKind::Own },
                ] + actions_ops(actions@));
                assert(with_status(tm, status_after(tm.status, actions@)) == *ticket);
            }
            Ok(Plan { ops, actions, tasks })
        },
    }
}

/// A row of the store's table of active tickets.
pub struct ActiveRow {
    pub user: UserRef,
    pub ticket_id: i32,
    pub node: usize,
    pub kind: RowKind,
    pub active: bool,
}

pub open spec fn deactivated(r: ActiveRow) -> ActiveRow {
    ActiveRow { active: false, ..r }
}

/// The table of active tickets after the store runs `op`.
pub open spec fn apply_op(rows: Seq<ActiveRow>, op: StoreOp) -> Seq<ActiveRow> {
    match op {
        StoreOp::AddRow { user, ticket_id, node, kind } => rows.push(
            ActiveRow { user, ticket_id, node, kind, active: true },
        ),
        StoreOp::Notification { .. } => rows,
        StoreOp::DeactivateUser { ticket_id, user_id } => rows.map_values(
            |r: ActiveRow|
                if r.ticket_id == ticket_id && r.user == UserRef::Id(user_id) {
                    deactivated(r)
                } else {
                    r
                },
        ),
        StoreOp::DeactivateAll { ticket_id } => rows.map_values(
            |r: ActiveRow|
                if r.ticket_id == ticket_id {
                    deactivated(r)
                } else {
                    r
                },
        ),
    }
}

/// The table of active tickets after the store runs `ops` in order.
pub open spec fn apply_ops(rows: Seq<ActiveRow>, ops: Seq<StoreOp>) -> Seq<ActiveRow>
    decreases ops.len(),
{
    if ops.len() == 0 {
        rows
    } else {
        apply_op(apply_ops(rows, ops.drop_last()), ops.last())
    }
}

/// The row that an approval request or a notification becomes.
pub open spec fn row_of(a: NewUserTicket) -> ActiveRow {
    ActiveRow {
        user: UserRef::Name(a.username.unwrap()),
        ticket_id: a.ticket_id,
        node: a.node,
        kind: if a.type_ == NewUserTicketType::ApproveRequest {
            RowKind::Approve
        } else {
            RowKind::Notify
        },
        active: true,
    }
}

proof fn lemma_apply_ops_append(rows: Seq<ActiveRow>, a: Seq<StoreOp>, b: Seq<StoreOp>)
    ensures
        apply_ops(rows, a + b) == apply_ops(apply_ops(rows, a), b),
    decreases b.len(),
{
    if b.len() == 0 {
        assert(a + b =~= a);
    } else {
        assert((a + b).drop_last() =~= a + b.drop_last());
        assert((a + b).last() == b.last());
        lemma_apply_ops_append(rows, a, b.drop_last());
    }
}

/// Persisting user actions and reading the table back: with no completion
/// among them, the table gains exactly one active row per action, in order;
/// when the last action completes the ticket, no row of the ticket is left
/// active.
pub proof fn lemma_persisted_rows(rows: Seq<ActiveRow>, actions: Seq<NewUserTicket>)
    requires
        forall|i: int|
            0 <= i < actions.len() && #[trigger] actions[i].type_ != NewUserTicketType::Completion
                ==> actions[i].username is Some,
    ensures
        !has_completion(actions) ==> apply_ops(rows, actions_ops(actions)) == rows + actions.map_values(
            |a: NewUserTicket| row_of(a),
        ),
        actions.len() > 0 && actions.last().type_ == NewUserTicketType::Completion ==> forall|i: int|
            0 <= i < apply_ops(rows, actions_ops(actions)).len() && #[trigger] apply_ops(
                rows,
                actions_ops(actions),
            )[i].ticket_id == actions.last().ticket_id ==> !apply_ops(rows, actions_ops(actions))[i].active,
    decreases actions.len(),
{
    if actions.len() > 0 {
        let init = actions.drop_last();
        let a = actions.last();
        assert forall|i: int|
            0 <= i < init.len() && #[trigger] init[i].type_ != NewUserTicketType::Completion
                implies init[i].username is Some by {
            assert(init[i] == actions[i]);
        }
        lemma_persisted_rows(rows, init);
        lemma_apply_ops_append(rows, actions_ops(init), action_ops(a));
        let mid = apply_ops(rows, actions_ops(init));
        if a.type_ == NewUserTicketType::Completion {
            let one = action_ops(a);
            assert(one.drop_last() =~= Seq::<StoreOp>::empty());
        } else {
            assert(actions[actions.len() - 1] == a);
            if !has_completion(actions) {
                assert(!has_completion(init)) by {
                    if has_completion(init) {
                        let j = choose|j: int| 0 <= j < init.len() && #[trigger] init[j].type_ == NewUserTicketType::Completion;
                        assert(actions[j] == init[j]);
                    }
                }
                let u = a.username.unwrap();
                if a.type_ == NewUserTicketType::ApproveRequest {
                    let one = action_ops(a);
                    assert(one.drop_last() =~= Seq::<StoreOp>::empty());
                    assert(apply_ops(mid, one.drop_last()) == mid);
                    assert(apply_ops(mid, one) == apply_op(mid, one.last()));
                } else {
                    let two = action_ops(a);
                    let first = two.drop_last();
                    assert(first =~= seq![two[0]]);
                    assert(first.drop_last() =~= Seq::<StoreOp>::empty());
                    assert(apply_ops(mid, first.drop_last()) == mid);
                    assert(apply_ops(mid, first) == apply_op(mid, two[0]));
                    assert(apply_ops(mid, two) == apply_op(apply_ops(mid, first), two.last()));
                }
                assert(actions_ops(actions) == actions_ops(init) + action_ops(a));
                assert(apply_ops(mid, action_ops(a)) =~= mid.push(row_of(a)));
                assert(actions.map_values(|a: NewUserTicket| row_of(a)) =~= init.map_values(
                    |a: NewUserTicket| row_of(a),
                ).push(row_of(a)));
                assert(apply_ops(rows, actions_ops(actions)) =~= rows + actions.map_values(
                    |a: NewUserTicket| row_of(a),
                ));
            }
        }
    }
}

proof fn lemma_actions_ops_append(a: Seq<NewUserTicket>, b: Seq<NewUserTicket>)
    ensures
        actions_ops(a + b) == actions_ops(a) + actions_ops(b),
    decreases b.len(),
{
    if b.len() == 0 {
        assert(a + b =~= a);
        assert(actions_ops(a) + actions_ops(b) =~= actions_ops(a));
    } else {
        assert((a + b).drop_last() =~= a + b.drop_last());
        assert((a + b).last() == b.last());
        lemma_actions_ops_append(a, b.drop_last());
        assert(actions_ops(a) + actions_ops(b) =~= actions_ops(a) + actions_ops(b.drop_last()) + action_ops(b.last()));
    }
}

/// Store writes never bring a row back to active, nor move it to another
/// ticket; they only add rows at the end.
proof fn lemma_apply_never_reactivates(rows: Seq<ActiveRow>, ops: Seq<StoreOp>)
    ensures
        apply_ops(rows, ops).len() >= rows.len(),
        forall|i: int|
            0 <= i < rows.len() ==> #[trigger] apply_ops(rows, ops)[i].ticket_id == rows[i].ticket_id
                && (apply_ops(rows, ops)[i].active ==> rows[i].active),
    decreases ops.len(),
{
    if ops.len() > 0 {
        lemma_apply_never_reactivates(rows, ops.drop_last());
        let mid = apply_ops(rows, ops.drop_last());
        assert forall|i: int| 0 <= i < rows.len() implies #[trigger] apply_ops(rows, ops)[i].ticket_id
            == rows[i].ticket_id && (apply_ops(rows, ops)[i].active ==> rows[i].active) by {
            assert(apply_ops(rows, ops) == apply_op(mid, ops.last()));
            assert(mid[i].ticket_id == rows[i].ticket_id);
        }
    }
}

/// Persisting user actions and reading the table back, wherever a
/// completion stands among them: every row of the ticket that exists once
/// the completion is persisted (rows from before, and rows of the actions
/// ahead of it) ends inactive.
pub proof fn lemma_completion_deactivates(rows: Seq<ActiveRow>, actions: Seq<NewUserTicket>, c: int)
    requires
        0 <= c < actions.len(),
        actions[c].type_ == NewUserTicketType::Completion,
    ensures
        forall|i: int|
            0 <= i < apply_ops(rows, actions_ops(actions.take(c + 1))).len() && #[trigger] apply_ops(
                rows,
                actions_ops(actions),
            )[i].ticket_id == actions[c].ticket_id ==> !apply_ops(rows, actions_ops(actions))[i].active,
{
    let head = actions.take(c + 1);
    let tail = actions.skip(c + 1);
    assert(actions =~= head + tail);
    lemma_actions_ops_append(head, tail);
    lemma_apply_ops_append(rows, actions_ops(head), actions_ops(tail));
    let before = apply_ops(rows, actions_ops(actions.take(c)));
    assert(head.drop_last() =~= actions.take(c));
    assert(head.last() == actions[c]);
    let one = action_ops(actions[c]);
    lemma_apply_ops_append(rows, actions_ops(actions.take(c)), one);
    assert(one.drop_last() =~= Seq::<StoreOp>::empty());
    assert(apply_ops(before, one) == apply_op(apply_ops(before, one.drop_last()), one.last()));
    let mid = apply_ops(rows, actions_ops(head));
    assert(mid == apply_ops(before, one));
    assert(forall|i: int| 0 <= i < mid.len() && #[trigger] mid[i].ticket_id == actions[c].ticket_id ==> !mid[i].active);
    lemma_apply_never_reactivates(mid, actions_ops(tail));
    assert(apply_ops(rows, actions_ops(actions)) == apply_ops(mid, actions_ops(tail)));
}

} // verus!
