use ticket_engine::engine::{execute_completable, execute_user_request, update_internal};
use ticket_engine::process::{Event, ProcessGraph, Step};
use ticket_engine::ticket::{ExecuteErr, NewUserTicketType, Ticket, TicketStatus};

fn step(event: Event, required: Vec<usize>, next: Vec<usize>, user: Option<&str>) -> Step {
    Step {
        event,
        required,
        next,
        args: user.map(|u| vec![u.to_string()]),
        callbacks: None,
    }
}

/// node0=Initiate -> node1=Complete
fn initiate_test() -> ProcessGraph {
    ProcessGraph::new(vec![
        step(Event::Initiate, vec![], vec![1], None),
        step(Event::Complete, vec![0], vec![], None),
    ])
    .unwrap()
}

/// node0=Initiate -> node1=Approve -> node2=Complete
fn approve_test() -> ProcessGraph {
    ProcessGraph::new(vec![
        step(Event::Initiate, vec![], vec![1], None),
        step(Event::Approve, vec![0], vec![2], Some("erp_admin")),
        step(Event::Complete, vec![1], vec![], None),
    ])
    .unwrap()
}

/// node0=Initiate -> {node1=Approve, node2=Approve} -> node3=Approve -> node4=Complete
fn simple_branch_test() -> ProcessGraph {
    ProcessGraph::new(vec![
        step(Event::Initiate, vec![], vec![1, 2], None),
        step(Event::Approve, vec![0], vec![3], Some("erp_admin")),
        step(Event::Approve, vec![0], vec![3], Some("erp_admin")),
        step(Event::Approve, vec![1, 2], vec![4], Some("erp_admin")),
        step(Event::Complete, vec![3], vec![], None),
    ])
    .unwrap()
}

fn new_ticket(process_id: &str, complete: u64) -> Ticket {
    Ticket {
        id: 0,
        owner_id: uuid::Uuid::new_v4().as_u128(),
        process_id: process_id.to_string(),
        log_id: uuid::Uuid::new_v4().as_u128(),
        is_public: false,
        created_at: chrono::Utc::now().timestamp_millis(),
        updated_at: chrono::Utc::now().timestamp_millis(),
        status: TicketStatus::Open,
        complete,
    }
}

#[test]
fn ticket_check_2_node_process() {
    let g = initiate_test();
    let mut ticket = new_ticket("initiate_test", 0);
    let result = update_internal(&mut ticket, &g, 0, false, 10);
    assert!(result.is_ok(), "update_internal failed");
    assert_eq!(ticket.complete, 1u64, "ticket complete mask is wrong");
    let result = result.unwrap();
    assert_eq!(result.actions.len(), 1);
    assert_eq!(result.actions[0].type_, NewUserTicketType::Completion);
    assert_eq!(result.actions[0].username, None);
}

#[test]
fn ticket_check_approve_user_request_works() {
    let g = approve_test();
    // initiate step is already completed
    let mut ticket = new_ticket("approve_test", 1);
    let result = update_internal(&mut ticket, &g, 1, false, 10);
    assert!(result.is_ok(), "update_internal failed");
    assert_eq!(ticket.complete, 3u64, "ticket complete mask is wrong");
    let result = result.unwrap();
    assert_eq!(result.actions.len(), 1, "there should be one new ticket in the ticket queue");
    match result.actions[0].type_ {
        NewUserTicketType::Completion => {}
        _ => panic!("new ticket should be of type completion"),
    }
}

#[test]
fn ticket_check_approve_node_works() {
    let g = approve_test();
    let mut ticket = new_ticket("approve_test", 0);
    let result = update_internal(&mut ticket, &g, 0, false, 10);
    assert!(result.is_ok(), "update_internal failed");
    assert_eq!(ticket.complete, 1u64, "ticket complete mask is wrong");
    let result = result.unwrap();
    assert_eq!(result.actions.len(), 1, "there should be one new ticket in the ticket queue");
    match result.actions[0].type_ {
        NewUserTicketType::ApproveRequest => {}
        _ => panic!("new ticket should be of type approve_request"),
    }
    assert_eq!(result.actions[0].username, Some("erp_admin".to_string()));
    assert_eq!(result.actions[0].node, 1);
}

#[test]
fn ticket_check_branch_process_initiate_works() {
    let g = simple_branch_test();
    let mut ticket = new_ticket("simple_branch_test", 0);
    let result = update_internal(&mut ticket, &g, 0, false, 10);
    assert!(result.is_ok(), "update_internal failed");
    let result = result.unwrap();
    assert_eq!(ticket.complete, 1u64, "ticket complete mask is wrong");
    assert_eq!(result.actions.len(), 2, "only 2 tickets should be added");
    for t in result.actions {
        match t.type_ {
            NewUserTicketType::ApproveRequest => {}
            _ => panic!("both tickets should be of type NewUSerTicketType::ApproveRequest"),
        }
        assert!(t.username.is_some(), "ticket should have a username");
        assert_eq!(t.username, Some("erp_admin".to_string()), "wrong username added for the approve reequest");
    }
}

#[test]
fn ticket_check_branch_process_1_approve_works() {
    let g = simple_branch_test();
    let mut ticket = new_ticket("simple_branch_test", 3);
    let result = update_internal(&mut ticket, &g, 2, false, 10);
    assert!(result.is_ok(), "update_internal failed");
    let result = result.unwrap();
    assert_eq!(ticket.complete, 7u64);
    assert_eq!(result.actions.len(), 1, "only 1 tickets should be added");
    let t = &result.actions[0];
    match t.type_ {
        NewUserTicketType::ApproveRequest => {}
        _ => panic!("both tickets should be of type NewUSerTicketType::ApproveRequest"),
    }
    assert!(t.username.is_some(), "ticket should have a username");
    assert_eq!(t.username, Some("erp_admin".to_string()), "wrong username added for the approve request");
    assert_eq!(t.node, 3);
}

#[test]
fn user_request_on_notify_step_is_invalid() {
    let g = ProcessGraph::new(vec![
        step(Event::Initiate, vec![], vec![1], None),
        step(Event::Notify, vec![0], vec![2], Some("bob")),
        step(Event::Complete, vec![1], vec![], None),
    ])
    .unwrap();
    let mut ticket = new_ticket("notify", 1);
    let before = ticket.complete;
    let r = execute_user_request(&mut ticket, &g, 1, false, 5);
    assert_eq!(r.unwrap_err(), ExecuteErr::InvalidTicket);
    assert_eq!(ticket.complete, before);
    let r = execute_user_request(&mut ticket, &g, 2, false, 5);
    assert_eq!(r.unwrap_err(), ExecuteErr::InvalidTicket);
}

#[test]
fn initiate_reached_automatically_is_invalid_event() {
    // a blocking task whose successor is the initiate step
    let g = ProcessGraph::new(vec![
        step(Event::Initiate, vec![], vec![1], None),
        step(Event::Complete, vec![0], vec![], None),
        step(Event::BlockingTask, vec![], vec![0], None),
    ])
    .unwrap();
    let mut ticket = new_ticket("odd", 0);
    let r = update_internal(&mut ticket, &g, 2, false, 5);
    assert_eq!(r.unwrap_err(), ExecuteErr::InvalidEvent);
    let mut ticket = new_ticket("odd", 0);
    let r = execute_completable(&mut ticket, 0, &g, 5);
    assert_eq!(r.unwrap_err(), ExecuteErr::InvalidEvent);
}

#[test]
fn notify_and_nonblocking_steps_are_marked_done() {
    let mut s3 = step(Event::NonBlockingTask, vec![1], vec![3], None);
    s3.callbacks = Some(vec!["archive".to_string()]);
    let g = ProcessGraph::new(vec![
        step(Event::Initiate, vec![], vec![1], None),
        step(Event::Notify, vec![0], vec![2], Some("bob")),
        s3,
        step(Event::Complete, vec![2], vec![], None),
    ])
    .unwrap();
    let mut ticket = new_ticket("notify", 0);
    let r = update_internal(&mut ticket, &g, 0, true, 42).unwrap();
    assert_eq!(ticket.complete, 7u64);
    assert_eq!(ticket.updated_at, 42);
    assert_eq!(r.actions.len(), 2);
    assert_eq!(r.actions[0].type_, NewUserTicketType::Notify);
    assert_eq!(r.actions[0].username, Some("bob".to_string()));
    // the completion comes last
    assert_eq!(r.actions[1].type_, NewUserTicketType::Completion);
    assert_eq!(r.actions[1].node, 3);
    assert_eq!(r.tasks.len(), 1);
    assert_eq!(r.tasks[0].node, 2);
    assert!(!r.tasks[0].with_payload);
    assert_eq!(r.tasks[0].callbacks, vec!["archive".to_string()]);
}

#[test]
fn blocking_task_waits_for_its_callback() {
    let mut s1 = step(Event::BlockingTask, vec![0], vec![2], None);
    s1.callbacks = Some(vec!["scan".to_string()]);
    let g = ProcessGraph::new(vec![
        step(Event::Initiate, vec![], vec![1], None),
        s1,
        step(Event::Complete, vec![1], vec![], None),
    ])
    .unwrap();
    let mut ticket = new_ticket("blocking", 0);
    let r = update_internal(&mut ticket, &g, 0, false, 7).unwrap();
    // the blocking step stays undone and its callbacks go out
    assert_eq!(ticket.complete, 1u64);
    assert!(r.actions.is_empty());
    assert_eq!(r.tasks.len(), 1);
    assert_eq!(r.tasks[0].node, 1);
    // the callback comes back through a request on the blocking step
    let r = update_internal(&mut ticket, &g, 1, true, 8).unwrap();
    assert_eq!(ticket.complete, 3u64);
    assert_eq!(r.actions.len(), 1);
    assert_eq!(r.actions[0].type_, NewUserTicketType::Completion);
    // no callbacks are sent again for the blocking step
    assert!(r.tasks.is_empty());
}

#[test]
fn user_request_dispatches_callbacks_with_payload() {
    let mut s1 = step(Event::Approve, vec![0], vec![2], Some("erp_admin"));
    s1.callbacks = Some(vec!["mail".to_string(), "audit".to_string()]);
    let g = ProcessGraph::new(vec![
        step(Event::Initiate, vec![], vec![1], None),
        s1,
        step(Event::Complete, vec![1], vec![], None),
    ])
    .unwrap();
    let mut ticket = new_ticket("approve", 0);
    // reached automatically, an approve step hands out no callbacks
    let r = update_internal(&mut ticket, &g, 0, true, 1).unwrap();
    assert!(r.tasks.is_empty());
    // approved by its user, it does
    let r = update_internal(&mut ticket, &g, 1, true, 2).unwrap();
    assert_eq!(r.tasks.len(), 1);
    assert!(r.tasks[0].with_payload);
    assert_eq!(r.tasks[0].callbacks.len(), 2);
}

#[test]
fn advancement_is_deterministic() {
    let g = simple_branch_test();
    let mut a = new_ticket("simple_branch_test", 0);
    let mut b = new_ticket("simple_branch_test", 0);
    b.owner_id = a.owner_id;
    b.log_id = a.log_id;
    b.created_at = a.created_at;
    b.updated_at = a.updated_at;
    let ra = update_internal(&mut a, &g, 0, false, 99).unwrap();
    let rb = update_internal(&mut b, &g, 0, false, 99).unwrap();
    assert_eq!(format!("{:?}", ra), format!("{:?}", rb));
    assert_eq!(format!("{:?}", a), format!("{:?}", b));
}

#[test]
fn successors_wait_for_all_prerequisites() {
    let g = simple_branch_test();
    // only one of the two branches approved: the join step is not ready
    let mut ticket = new_ticket("simple_branch_test", 1);
    let r = update_internal(&mut ticket, &g, 1, false, 3).unwrap();
    assert_eq!(ticket.complete, 3u64);
    assert!(r.actions.is_empty());
    let st = execute_user_request(&mut ticket, &g, 2, false, 4).unwrap();
    assert_eq!(st.completable_steps, vec![3]);
    assert_eq!(st.status, TicketStatus::Open);
}

#[test]
fn initiate_without_successors_closes() {
    let g = ProcessGraph::new(vec![
        step(Event::Initiate, vec![], vec![], None),
        step(Event::Complete, vec![], vec![], None),
    ])
    .unwrap();
    let mut ticket = new_ticket("single", 0);
    let st = execute_user_request(&mut ticket, &g, 0, false, 4).unwrap();
    assert_eq!(st.status, TicketStatus::Closed);
    assert!(st.completable_steps.is_empty());
}
