use ticket_engine::mask::{all_n_set, all_required_set, is_set, set_bit};
use ticket_engine::process::{get_event_map, Event, GraphError, ProcessGraph, Step};

fn step(event: Event, required: Vec<usize>, next: Vec<usize>, user: Option<&str>) -> Step {
    Step {
        event,
        required,
        next,
        args: user.map(|u| vec![u.to_string()]),
        callbacks: None,
    }
}

#[test]
fn mask_set_and_test() {
    assert_eq!(set_bit(0, 0), 1);
    assert_eq!(set_bit(1, 3), 9);
    assert_eq!(set_bit(9, 3), 9);
    assert_eq!(set_bit(0, 63), 1u64 << 63);
    assert!(is_set(9, 3));
    assert!(!is_set(9, 2));
    assert!(!is_set(u64::MAX, 64));
}

#[test]
fn mask_required_sets() {
    assert!(all_required_set(0b1011, &vec![0, 1, 3]));
    assert!(!all_required_set(0b1011, &vec![0, 2]));
    assert!(all_required_set(0, &vec![]));
}

#[test]
fn mask_first_bits() {
    assert!(all_n_set(0b0111, 3));
    assert!(!all_n_set(0b0101, 3));
    assert!(all_n_set(0, 0));
    assert!(all_n_set(u64::MAX, 64));
    assert!(!all_n_set(u64::MAX >> 1, 64));
}

#[test]
fn event_names() {
    assert_eq!(get_event_map(&"initiate".to_string()), Some(Event::Initiate));
    assert_eq!(get_event_map(&"approve".to_string()), Some(Event::Approve));
    assert_eq!(get_event_map(&"notify".to_string()), Some(Event::Notify));
    assert_eq!(get_event_map(&"non_blocking_task".to_string()), Some(Event::NonBlockingTask));
    assert_eq!(get_event_map(&"blocking_task".to_string()), Some(Event::BlockingTask));
    assert_eq!(get_event_map(&"complete".to_string()), Some(Event::Complete));
    assert_eq!(get_event_map(&"Complete".to_string()), None);
    assert_eq!(get_event_map(&"".to_string()), None);
}

#[test]
fn graph_accepts_a_valid_process() {
    let g = ProcessGraph::new(vec![
        step(Event::Initiate, vec![], vec![1, 2], None),
        step(Event::Approve, vec![0], vec![3], Some("a")),
        step(Event::Notify, vec![0], vec![3], Some("b")),
        step(Event::Complete, vec![1, 2], vec![], None),
    ])
    .unwrap();
    assert_eq!(g.len(), 4);
    assert_eq!(g.steps()[2].event, Event::Notify);
}

#[test]
fn graph_rejects_bad_sizes() {
    assert_eq!(ProcessGraph::new(vec![]).unwrap_err(), GraphError::BadSize);
    let mut steps = vec![step(Event::Initiate, vec![], vec![1], None)];
    for i in 1..65 {
        steps.push(step(Event::NonBlockingTask, vec![], if i < 64 { vec![i + 1] } else { vec![] }, None));
    }
    steps[64] = step(Event::Complete, vec![], vec![], None);
    assert_eq!(steps.len(), 65);
    assert_eq!(ProcessGraph::new(steps).unwrap_err(), GraphError::BadSize);
}

#[test]
fn graph_of_largest_size() {
    let mut steps = vec![step(Event::Initiate, vec![], vec![1], None)];
    for i in 1..63 {
        steps.push(step(Event::NonBlockingTask, vec![i - 1], vec![i + 1], None));
    }
    steps.push(step(Event::Complete, vec![62], vec![], None));
    assert_eq!(steps.len(), 64);
    assert!(ProcessGraph::new(steps).is_ok());
}

#[test]
fn graph_rejects_misplaced_initiate() {
    let r = ProcessGraph::new(vec![
        step(Event::Approve, vec![], vec![1], Some("a")),
        step(Event::Complete, vec![0], vec![], None),
    ]);
    assert_eq!(r.unwrap_err(), GraphError::BadInitiate);
    let r = ProcessGraph::new(vec![
        step(Event::Initiate, vec![], vec![1], None),
        step(Event::Initiate, vec![], vec![2], None),
        step(Event::Complete, vec![0], vec![], None),
    ]);
    assert_eq!(r.unwrap_err(), GraphError::BadInitiate);
}

#[test]
fn graph_rejects_missing_terminal() {
    let r = ProcessGraph::new(vec![
        step(Event::Initiate, vec![], vec![1], None),
        step(Event::Complete, vec![0], vec![0], None),
    ]);
    assert_eq!(r.unwrap_err(), GraphError::NoTerminal);
}

#[test]
fn graph_rejects_bad_edges() {
    let r = ProcessGraph::new(vec![
        step(Event::Initiate, vec![], vec![2], None),
        step(Event::Complete, vec![0], vec![], None),
    ]);
    assert_eq!(r.unwrap_err(), GraphError::BadEdge);
    let r = ProcessGraph::new(vec![
        step(Event::Initiate, vec![], vec![1], None),
        step(Event::Complete, vec![5], vec![], None),
    ]);
    assert_eq!(r.unwrap_err(), GraphError::BadEdge);
}

#[test]
fn graph_rejects_missing_target() {
    let r = ProcessGraph::new(vec![
        step(Event::Initiate, vec![], vec![1], None),
        step(Event::Approve, vec![0], vec![2], None),
        step(Event::Complete, vec![1], vec![], None),
    ]);
    assert_eq!(r.unwrap_err(), GraphError::MissingTarget);
    let mut s = step(Event::Notify, vec![0], vec![2], None);
    s.args = Some(vec![]);
    let r = ProcessGraph::new(vec![
        step(Event::Initiate, vec![], vec![1], None),
        s,
        step(Event::Complete, vec![1], vec![], None),
    ]);
    assert_eq!(r.unwrap_err(), GraphError::MissingTarget);
}

#[test]
fn graph_rejects_cycles() {
    let r = ProcessGraph::new(vec![
        step(Event::Initiate, vec![], vec![1], None),
        step(Event::Approve, vec![0], vec![2], Some("a")),
        step(Event::NonBlockingTask, vec![1], vec![1, 3], None),
        step(Event::Complete, vec![2], vec![], None),
    ]);
    assert_eq!(r.unwrap_err(), GraphError::Cyclic);
    let r = ProcessGraph::new(vec![
        step(Event::Initiate, vec![], vec![0, 1], None),
        step(Event::Complete, vec![0], vec![], None),
    ]);
    assert_eq!(r.unwrap_err(), GraphError::Cyclic);
}
