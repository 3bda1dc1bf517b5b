use ticket_engine::orchestrator::{
    persist_actions, plan_create, plan_update, RowKind, StoreOp, UpdateError,
    UserRef,
};
use ticket_engine::process::{Event, ProcessGraph, Step};
use ticket_engine::requests::{parse_status, role_names, status_name, RoleDef};
use ticket_engine::state::merge_state;
use ticket_engine::ticket::{ExecuteErr, NewUserTicket, NewUserTicketType, Ticket, TicketStatus};

fn step(event: Event, required: Vec<usize>, next: Vec<usize>, user: Option<&str>) -> Step {
    Step {
        event,
        required,
        next,
        args: user.map(|u| vec![u.to_string()]),
        callbacks: None,
    }
}

fn approve_test() -> ProcessGraph {
    ProcessGraph::new(vec![
        step(Event::Initiate, vec![], vec![1], None),
        step(Event::Approve, vec![0], vec![2], Some("erp_admin")),
        step(Event::Complete, vec![1], vec![], None),
    ])
    .unwrap()
}

fn ticket(complete: u64, status: TicketStatus) -> Ticket {
    Ticket {
        id: 17,
        owner_id: 5,
        process_id: "approve_test".to_string(),
        log_id: 9,
        is_public: true,
        created_at: 100,
        updated_at: 100,
        status,
        complete,
    }
}

fn active_rows(ops: &[StoreOp]) -> Vec<(String, usize)> {
    // a small in-memory reading of the writes: rows added and not closed since
    let mut rows: Vec<(String, usize, bool)> = Vec::new();
    for op in ops {
        match op {
            StoreOp::AddRow { user: UserRef::Name(u), node, .. } => rows.push((u.clone(), *node, true)),
            StoreOp::DeactivateAll { .. } => rows.iter_mut().for_each(|r| r.2 = false),
            _ => {}
        }
    }
    rows.into_iter().filter(|r| r.2).map(|r| (r.0, r.1)).collect()
}

#[test]
fn rejection_closes_the_ticket_without_advancing() {
    let g = approve_test();
    let mut t = ticket(1, TicketStatus::Open);
    let plan = plan_update(&mut t, &g, 77, false, 1, false, 200).unwrap();
    assert_eq!(t.status, TicketStatus::Rejected);
    assert_eq!(t.complete, 1);
    assert_eq!(t.updated_at, 100);
    assert!(plan.actions.is_empty());
    assert!(plan.tasks.is_empty());
    assert_eq!(plan.ops.len(), 2);
    assert!(matches!(plan.ops[0], StoreOp::DeactivateUser { ticket_id: 17, user_id: 77 }));
    assert!(matches!(plan.ops[1], StoreOp::DeactivateAll { ticket_id: 17 }));
}

#[test]
fn acceptance_advances_and_completes() {
    let g = approve_test();
    let mut t = ticket(1, TicketStatus::Open);
    let plan = plan_update(&mut t, &g, 77, true, 1, false, 200).unwrap();
    assert_eq!(t.status, TicketStatus::Closed);
    assert_eq!(t.complete, 3);
    assert_eq!(t.updated_at, 200);
    assert_eq!(plan.actions.len(), 1);
    assert_eq!(plan.actions[0].type_, NewUserTicketType::Completion);
    assert_eq!(plan.ops.len(), 2);
    assert!(matches!(plan.ops[0], StoreOp::DeactivateUser { ticket_id: 17, user_id: 77 }));
    assert!(matches!(plan.ops[1], StoreOp::DeactivateAll { ticket_id: 17 }));
    assert!(active_rows(&plan.ops).is_empty());
}

#[test]
fn closed_and_rejected_tickets_are_not_updated() {
    let g = approve_test();
    for status in [TicketStatus::Closed, TicketStatus::Rejected] {
        for accepted in [true, false] {
            let mut t = ticket(1, status);
            let r = plan_update(&mut t, &g, 77, accepted, 1, false, 200);
            assert_eq!(r.unwrap_err(), UpdateError::Forbidden);
            assert_eq!(t.status, status);
            assert_eq!(t.complete, 1);
        }
    }
}

#[test]
fn update_on_unknown_step_fails() {
    let g = approve_test();
    let mut t = ticket(1, TicketStatus::Open);
    let r = plan_update(&mut t, &g, 77, true, 3, false, 200);
    assert_eq!(r.unwrap_err(), UpdateError::Engine(ExecuteErr::InvalidTicket));
    let r = plan_update(&mut t, &g, 77, true, 2, false, 200);
    assert_eq!(r.unwrap_err(), UpdateError::Engine(ExecuteErr::InvalidTicket));
    assert_eq!(t.status, TicketStatus::Open);
}

#[test]
fn creation_adds_owner_row_and_approval_request() {
    let g = approve_test();
    let mut t = ticket(0, TicketStatus::Open);
    let plan = plan_create(&mut t, &g, false, 300).unwrap();
    assert_eq!(t.complete, 1);
    assert_eq!(t.status, TicketStatus::Open);
    assert_eq!(plan.ops.len(), 2);
    match &plan.ops[0] {
        StoreOp::AddRow { user: UserRef::Id(5), ticket_id: 17, node: 0, kind: RowKind::Own } => {}
        other => panic!("unexpected {:?}", other),
    }
    match &plan.ops[1] {
        StoreOp::AddRow { user: UserRef::Name(u), ticket_id: 17, node: 1, kind: RowKind::Approve } => {
            assert_eq!(u, "erp_admin")
        }
        other => panic!("unexpected {:?}", other),
    }
    assert_eq!(active_rows(&plan.ops), vec![("erp_admin".to_string(), 1)]);
}

#[test]
fn persisted_actions_give_one_row_each() {
    let mut t = ticket(1, TicketStatus::Open);
    let actions = vec![
        NewUserTicket { type_: NewUserTicketType::ApproveRequest, ticket_id: 17, node: 1, username: Some("a".to_string()) },
        NewUserTicket { type_: NewUserTicketType::Notify, ticket_id: 17, node: 2, username: Some("b".to_string()) },
    ];
    let ops = persist_actions(&mut t, &actions);
    assert_eq!(t.status, TicketStatus::Open);
    assert_eq!(ops.len(), 3);
    assert!(matches!(&ops[2], StoreOp::Notification { user, ticket_id: 17 } if user == "b"));
    assert_eq!(active_rows(&ops), vec![("a".to_string(), 1), ("b".to_string(), 2)]);

    let mut actions = actions;
    actions.push(NewUserTicket { type_: NewUserTicketType::Completion, ticket_id: 17, node: 3, username: None });
    let ops = persist_actions(&mut t, &actions);
    assert_eq!(t.status, TicketStatus::Closed);
    assert_eq!(ops.len(), 4);
    assert!(active_rows(&ops).is_empty());
}

#[test]
fn update_takes_the_given_time() {
    let g = approve_test();
    let mut t = ticket(1, TicketStatus::Open);
    let plan = plan_update(&mut t, &g, 77, true, 1, false, 12345).unwrap();
    assert_eq!(t.status, TicketStatus::Closed);
    assert_eq!(t.updated_at, 12345);
    assert_eq!(plan.actions.len(), 1);
}

#[test]
fn state_merge_overlays_payload() {
    let mut state = serde_json::Map::new();
    state.insert("a".to_string(), serde_json::Value::from(1));
    state.insert("b".to_string(), serde_json::Value::from(2));
    let mut data = serde_json::Map::new();
    data.insert("b".to_string(), serde_json::Value::from(20));
    data.insert("c".to_string(), serde_json::Value::from(30));
    let merged = merge_state(state.clone(), Some(data));
    assert_ne!(merged, state);
    assert_eq!(merged.len(), 3);
    assert_eq!(merged["a"], serde_json::Value::from(1));
    assert_eq!(merged["b"], serde_json::Value::from(20));
    assert_eq!(merged["c"], serde_json::Value::from(30));
    assert_eq!(merge_state(state.clone(), None), state);
}

#[test]
fn role_names_in_order() {
    let defs = vec![
        RoleDef { id: 2, role_: "admin".to_string() },
        RoleDef { id: 1, role_: "clerk".to_string() },
    ];
    assert_eq!(role_names(&defs), vec!["admin".to_string(), "clerk".to_string()]);
    assert!(role_names(&vec![]).is_empty());
}

#[test]
fn status_names_round_trip() {
    for s in [TicketStatus::Open, TicketStatus::Closed, TicketStatus::Rejected] {
        assert_eq!(parse_status(&status_name(s)), Some(s));
    }
    assert_eq!(status_name(TicketStatus::Rejected), "rejected");
    assert_eq!(parse_status(&"done".to_string()), None);
}

#[test]
fn creation_of_two_node_process_closes() {
    let g = ProcessGraph::new(vec![
        step(Event::Initiate, vec![], vec![1], None),
        step(Event::Complete, vec![0], vec![], None),
    ])
    .unwrap();
    let mut t = ticket(0, TicketStatus::Open);
    let plan = plan_create(&mut t, &g, false, 300).unwrap();
    assert_eq!(t.complete, 1);
    assert_eq!(t.status, TicketStatus::Closed);
    assert_eq!(t.updated_at, 300);
    assert_eq!(plan.actions.len(), 1);
    assert_eq!(plan.actions[0].type_, NewUserTicketType::Completion);
    assert_eq!(plan.ops.len(), 2);
    assert!(matches!(plan.ops[1], StoreOp::DeactivateAll { ticket_id: 17 }));
    assert!(active_rows(&plan.ops).is_empty());
}
