//! Process graphs: the steps of a process, their prerequisites and
//! successors, and the checks that make a list of steps a usable graph.

use vstd::prelude::*;
use crate::mask::MASK_WIDTH;

verus! {

/// What a step does when it fires.
#[derive(Clone, Copy, Debug, PartialEq, Eq, Hash, Structural)]
pub enum Event {
    Initiate,
    Approve,
    Notify,
    NonBlockingTask,
    BlockingTask,
    Complete,
}

/// The name under which an event is written in a process definition.
pub open spec fn event_name(e: Event) -> Seq<char> {
    match e {
        Event::Initiate => "initiate"@,
        Event::Approve => "approve"@,
        Event::Notify => "notify"@,
        Event::NonBlockingTask => "non_blocking_task"@,
        Event::BlockingTask => "blocking_task"@,
        Event::Complete => "complete"@,
    }
}

/// The event written as `name`, if any.
pub open spec fn event_named(name: Seq<char>) -> Option<Event> {
    if name == "initiate"@ {
        Some(Event::Initiate)
    } else if name == "approve"@ {
        Some(Event::Approve)
    } else if name == "notify"@ {
        Some(Event::Notify)
    } else if name == "non_blocking_task"@ {
        Some(Event::NonBlockingTask)
    } else if name == "blocking_task"@ {
        Some(Event::BlockingTask)
    } else if name == "complete"@ {
        Some(Event::Complete)
    } else {
        None
    }
}

/// Looks up the event that a process definition names `name`.
pub fn get_event_map(name: &String) -> (r: Option<Event>)
    ensures
        r == event_named(name@),
{
    proof {
        reveal_strlit("initiate");
        reveal_strlit("approve");
        reveal_strlit("notify");
        reveal_strlit("non_blocking_task");
        reveal_strlit("blocking_task");
        reveal_strlit("complete");
    }
    if *name == "initiate".to_owned() {
        Some(Event::Initiate)
    } else if *name == "approve".to_owned() {
        Some(Event::Approve)
    } else if *name == "notify".to_owned() {
        Some(Event::Notify)
    } else if *name == "non_blocking_task".to_owned() {
        Some(Event::NonBlockingTask)
    } else if *name == "blocking_task".to_owned() {
        Some(Event::BlockingTask)
    } else if *name == "complete".to_owned() {
        Some(Event::Complete)
    } else {
        None
    }
}


/// One step of a process.
///
/// `required` lists the steps that must be done before this one may fire,
/// `next` its direct successors in the order in which they are tried,
/// `args[0]` the user that an approval or a notification goes to, and
/// `callbacks` the external tasks that firing the step hands out.
#[derive(Clone, Debug)]
pub struct Step {
    pub event: Event,
    pub required: Vec<usize>,
    pub next: Vec<usize>,
    pub args: Option<Vec<String>>,
    pub callbacks: Option<Vec<String>>,
}

/// Why a list of steps is not a usable process graph.
#[derive(Clone, Copy, Debug, PartialEq, Eq, Structural)]
pub enum GraphError {
    /// There are no steps, or more than a completion mask can record.
    BadSize,
    /// Step 0 is not the one `Initiate` step.
    BadInitiate,
    /// No `Complete` step without successors.
    NoTerminal,
    /// A `required` or `next` index is out of range.
    BadEdge,
    /// An `Approve` or `Notify` step names no user.
    MissingTarget,
    /// Following `next` edges can come back to a step.
    Cyclic,
}

pub open spec fn edges_in_range(steps: Seq<Step>) -> bool {
    &&& forall|i: int, k: int|
        #![trigger steps[i].next@[k]]
        0 <= i < steps.len() && 0 <= k < steps[i].next@.len() ==> steps[i].next@[k] < steps.len()
    &&& forall|i: int, k: int|
        #![trigger steps[i].required@[k]]
        0 <= i < steps.len() && 0 <= k < steps[i].required@.len() ==> steps[i].required@[k]
            < steps.len()
}

pub open spec fn has_target(s: Step) -> bool {
    (s.event == Event::Approve || s.event == Event::Notify) ==> (s.args.is_some()
        && s.args.unwrap()@.len() >= 1)
}

pub open spec fn is_terminal(s: Step) -> bool {
    s.event == Event::Complete && s.next@.len() == 0
}

/// The shape that every process graph has, acyclicity aside.
pub open spec fn structural(steps: Seq<Step>) -> bool {
    &&& 1 <= steps.len() <= MASK_WIDTH
    &&& steps[0].event == Event::Initiate
    &&& forall|i: int| 0 < i < steps.len() ==> #[trigger] steps[i].event != Event::Initiate
    &&& exists|i: int| 0 <= i < steps.len() && #[trigger] is_terminal(steps[i])
    &&& edges_in_range(steps)
    &&& forall|i: int| 0 <= i < steps.len() ==> #[trigger] has_target(steps[i])
}

/// `rank` strictly decreases along every `next` edge.
pub open spec fn ranked(steps: Seq<Step>, rank: Seq<usize>) -> bool {
    &&& rank.len() == steps.len()
    &&& forall|i: int, k: int|
        #![trigger steps[i].next@[k]]
        0 <= i < steps.len() && 0 <= k < steps[i].next@.len() ==> 0 <= steps[i].next@[k]
            < steps.len() && rank[steps[i].next@[k] as int] < rank[i]
}

/// No path of `next` edges comes back to where it started.
pub open spec fn acyclic(steps: Seq<Step>) -> bool {
    exists|rank: Seq<usize>| ranked(steps, rank)
}

/// A process graph: an immutable list of steps, indexed by node number.
#[derive(Debug)]
pub struct ProcessGraph {
    steps: Vec<Step>,
    rank: Vec<usize>,
}

impl View for ProcessGraph {
    type V = Seq<Step>;

    closed spec fn view(&self) -> Seq<Step> {
        self.steps@
    }
}

impl ProcessGraph {
    pub closed spec fn rank(&self) -> Seq<usize> {
        self.rank@
    }

    pub open spec fn wf(&self) -> bool {
        &&& structural(self@)
        &&& ranked(self@, self.rank())
    }

    /// Builds a graph from its steps, or says why they do not form one.
    pub fn new(steps: Vec<Step>) -> (r: Result<ProcessGraph, GraphError>)
        ensures
            r is Ok <==> structural(steps@) && acyclic(steps@),
            r matches Ok(g) ==> g.wf() && g@ == steps@,
            r matches Err(e) ==> (e == GraphError::Cyclic <==> structural(steps@)),
    {
        match check_structure(&steps) {
            Err(e) => Err(e),
            Ok(()) => match compute_rank(&steps) {
                None => Err(GraphError::Cyclic),
                Some(rank) => {
                    let g = ProcessGraph { steps, rank };
                    assert(ranked(g@, g.rank()));
                    Ok(g)
                },
            },
        }
    }

    pub fn steps(&self) -> (r: &Vec<Step>)
        ensures
            r@ == self@,
    {
        &self.steps
    }

    pub fn len(&self) -> (r: usize)
        ensures
            r == self@.len(),
    {
        self.steps.len()
    }
}

fn check_edges(e: &Vec<usize>, n: usize) -> (r: bool)
    ensures
        r == forall|k: int| 0 <= k < e@.len() ==> #[trigger] e@[k] < n,
{
    let mut k: usize = 0;
    while k < e.len()
        invariant
            k <= e.len(),
            forall|j: int| 0 <= j < k ==> #[trigger] e@[j] < n,
        decreases e.len() - k,
    {
        if e[k] >= n {
            return false;
        }
        k = k + 1;
    }
    true
}

fn names_target(s: &Step) -> (r: bool)
    ensures
        r == has_target(*s),
{
    if s.event == Event::Approve || s.event == Event::Notify {
        match &s.args {
            None => false,
            Some(a) => a.len() >= 1,
        }
    } else {
        true
    }
}

/// Checks every condition of `structural`, naming the first that fails.
fn check_structure(steps: &Vec<Step>) -> (r: Result<(), GraphError>)
    ensures
        r is Ok <==> structural(steps@),
        r matches Err(e) ==> e != GraphError::Cyclic,
{
    let n = steps.len();
    if n == 0 || n > MASK_WIDTH {
        return Err(GraphError::BadSize);
    }
    if steps[0].event != Event::Initiate {
        return Err(GraphError::BadInitiate);
    }
    let mut terminal = false;
    let mut i: usize = 0;
    while i < n
        invariant
            n == steps.len(),
            1 <= n <= MASK_WIDTH,
            steps@[0].event == Event::Initiate,
            i <= n,
            forall|j: int| 0 < j < i ==> #[trigger] steps@[j].event != Event::Initiate,
            forall|j: int| 0 <= j < i ==> #[trigger] has_target(steps@[j]),
            forall|j: int, k: int|
                #![trigger steps@[j].next@[k]]
                0 <= j < i && 0 <= k < steps@[j].next@.len() ==> steps@[j].next@[k] < n,
            forall|j: int, k: int|
                #![trigger steps@[j].required@[k]]
                0 <= j < i && 0 <= k < steps@[j].required@.len() ==> steps@[j].required@[k] < n,
            terminal == exists|j: int| 0 <= j < i && #[trigger] is_terminal(steps@[j]),
        decreases n - i,
    {
        let s = &steps[i];
        if i > 0 && s.event == Event::Initiate {
            return Err(GraphError::BadInitiate);
        }
        if !names_target(s) {
            return Err(GraphError::MissingTarget);
        }
        if !check_edges(&s.next, n) || !check_edges(&s.required, n) {
            return Err(GraphError::BadEdge);
        }
        if s.event == Event::Complete && s.next.len() == 0 {
            terminal = true;
        }
        proof {
            if terminal {
                let w = if is_terminal(steps@[i as int]) {
                    i as int
                } else {
                    choose|j: int| 0 <= j < i && #[trigger] is_terminal(steps@[j])
                };
                assert(0 <= w < i + 1 && is_terminal(steps@[w]));
            }
        }
        i = i + 1;
    }
    if !terminal {
        return Err(GraphError::NoTerminal);
    }
    Ok(())
}

/// Every ranked step has only ranked successors, of lower rank.
spec fn rank_closed(steps: Seq<Step>, done: Seq<bool>, rank: Seq<usize>) -> bool {
    forall|i: int, k: int|
        #![trigger steps[i].next@[k]]
        0 <= i < steps.len() && done[i] && 0 <= k < steps[i].next@.len() ==> done[steps[i].next@[k] as int]
            && rank[steps[i].next@[k] as int] < rank[i]
}

/// Every step not yet ranked has a successor not yet ranked.
spec fn stuck(steps: Seq<Step>, done: Seq<bool>) -> bool {
    forall|i: int|
        0 <= i < steps.len() && !#[trigger] done[i] ==> exists|k: int|
            0 <= k < steps[i].next@.len() && !done[steps[i].next@[k] as int]
}

proof fn lemma_stuck_means_done(steps: Seq<Step>, done: Seq<bool>, rank: Seq<usize>, i: int)
    requires
        ranked(steps, rank),
        stuck(steps, done),
        done.len() == steps.len(),
        0 <= i < steps.len(),
    ensures
        done[i],
    decreases rank[i],
{
    if !done[i] {
        let k = choose|k: int| 0 <= k < steps[i].next@.len() && !done[steps[i].next@[k] as int];
        let j = steps[i].next@[k];
        assert(rank[j as int] < rank[i]);
        lemma_stuck_means_done(steps, done, rank, j as int);
    }
}

fn succs_ranked_below(next: &Vec<usize>, done: &Vec<bool>, rank: &Vec<usize>, round: usize) -> (r:
    bool)
    requires
        rank@.len() == done@.len(),
        forall|k: int| 0 <= k < next@.len() ==> #[trigger] next@[k] < done@.len(),
    ensures
        r == forall|k: int|
            0 <= k < next@.len() ==> #[trigger] done@[next@[k] as int] && rank@[next@[k] as int]
                < round,
{
    let mut k: usize = 0;
    while k < next.len()
        invariant
            k <= next@.len(),
            rank@.len() == done@.len(),
            forall|j: int| 0 <= j < next@.len() ==> #[trigger] next@[j] < done@.len(),
            forall|j: int|
                0 <= j < k ==> #[trigger] done@[next@[j] as int] && rank@[next@[j] as int] < round,
        decreases next.len() - k,
    {
        let s = next[k];
        if !done[s] || rank[s] >= round {
            return false;
        }
        k = k + 1;
    }
    true
}

/// Ranks the steps so that every `next` edge goes down in rank: each round
/// ranks the steps whose successors all have lower ranks. When a round
/// ranks nothing, what is left lies on a cycle.
fn compute_rank(steps: &Vec<Step>) -> (r: Option<Vec<usize>>)
    requires
        edges_in_range(steps@),
        steps@.len() <= MASK_WIDTH,
    ensures
        match r {
            Some(rank) => ranked(steps@, rank@),
            None => !acyclic(steps@),
        },
{
    let n = steps.len();
    let mut rank: Vec<usize> = Vec::new();
    let mut done: Vec<bool> = Vec::new();
    let mut i: usize = 0;
    while i < n
        invariant
            i <= n,
            n == steps.len(),
            rank@.len() == i,
            done@.len() == i,
            forall|j: int| 0 <= j < i ==> !#[trigger] done@[j],
        decreases n - i,
    {
        rank.push(0);
        done.push(false);
        i = i + 1;
    }
    let mut count: usize = 0;
    let ghost mut done_set: Set<int> = Set::empty();
    let mut round: usize = 1;
    proof {
        vstd::set_lib::lemma_int_range(0, n as int);
    }
    loop
        invariant
            n == steps.len(),
            n <= MASK_WIDTH,
            edges_in_range(steps@),
            rank@.len() == n,
            done@.len() == n,
            done_set.finite(),
            done_set.len() == count,
            count <= n,
            forall|j: int| 0 <= j < n ==> (done@[j] <==> #[trigger] done_set.contains(j)),
            done_set.subset_of(vstd::set_lib::set_int_range(0, n as int)),
            vstd::set_lib::set_int_range(0, n as int).finite(),
            vstd::set_lib::set_int_range(0, n as int).len() == n,
            1 <= round <= count + 1,
            forall|j: int| 0 <= j < n && #[trigger] done@[j] ==> rank@[j] < round,
            rank_closed(steps@, done@, rank@),
        decreases n - count,
    {
        let ghost count0 = count;
        let ghost done0 = done@;
        let mut changed = false;
        let mut i: usize = 0;
        while i < n
            invariant
                n == steps.len(),
                n <= MASK_WIDTH,
                edges_in_range(steps@),
                rank@.len() == n,
                done@.len() == n,
                i <= n,
                done_set.finite(),
                done_set.len() == count,
                forall|j: int| 0 <= j < n ==> (done@[j] <==> #[trigger] done_set.contains(j)),
                done_set.subset_of(vstd::set_lib::set_int_range(0, n as int)),
                count0 <= count,
                count <= n,
                done0.len() == n,
                vstd::set_lib::set_int_range(0, n as int).finite(),
                vstd::set_lib::set_int_range(0, n as int).len() == n,
                changed <==> count0 < count,
                !changed ==> done@ == done0,
                1 <= round <= count0 + 1,
                forall|j: int| 0 <= j < n && #[trigger] done@[j] ==> rank@[j] <= round,
                forall|j: int| 0 <= j < n && #[trigger] done0[j] ==> rank@[j] < round,
                forall|j: int| 0 <= j < n ==> #[trigger] done0[j] ==> done@[j],
                rank_closed(steps@, done@, rank@),
                !changed ==> forall|j: int|
                    0 <= j < i && !#[trigger] done@[j] ==> exists|k: int|
                        0 <= k < steps@[j].next@.len() && !(done@[steps@[j].next@[k] as int]
                            && rank@[steps@[j].next@[k] as int] < round),
            decreases n - i,
        {
            if !done[i] {
                proof {
                    assert forall|k: int| 0 <= k < steps@[i as int].next@.len() implies
                        #[trigger] steps@[i as int].next@[k] < done@.len() by {
                        assert(steps@[i as int].next@[k] < n);
                    }
                }
                if succs_ranked_below(&steps[i].next, &done, &rank, round) {
                    proof {
                        assert(!done_set.contains(i as int));
                        done_set = done_set.insert(i as int);
                        vstd::set_lib::lemma_len_subset(
                            done_set,
                            vstd::set_lib::set_int_range(0, n as int),
                        );
                    }
                    rank.set(i, round);
                    done.set(i, true);
                    count = count + 1;
                    changed = true;
                }
            }
            i = i + 1;
        }
        if !changed {
            proof {
                assert forall|j: int| 0 <= j < steps@.len() && !#[trigger] done@[j] implies exists|k: int|
                    0 <= k < steps@[j].next@.len() && !done@[steps@[j].next@[k] as int] by {
                    let k = choose|k: int|
                        0 <= k < steps@[j].next@.len() && !(done@[steps@[j].next@[k] as int]
                            && rank@[steps@[j].next@[k] as int] < round);
                    assert(steps@[j].next@[k] < n);
                }
                assert(stuck(steps@, done@));
            }
            if count == n {
                proof {
                    assert forall|j: int| 0 <= j < n implies #[trigger] done@[j] by {
                        if !done@[j] {
                            assert forall|x: int| done_set.contains(x) implies
                                vstd::set_lib::set_int_range(0, n as int).remove(j).contains(x) by {}
                            vstd::set_lib::lemma_len_subset(
                                done_set,
                                vstd::set_lib::set_int_range(0, n as int).remove(j),
                            );
                        }
                    }
                }
                return Some(rank);
            } else {
                proof {
                    if acyclic(steps@) {
                        let rk = choose|rk: Seq<usize>| ranked(steps@, rk);
                        assert forall|j: int| 0 <= j < n implies #[trigger] done_set.contains(j) by {
                            lemma_stuck_means_done(steps@, done@, rk, j);
                        }
                        assert(vstd::set_lib::set_int_range(0, n as int).subset_of(done_set));
                        vstd::set_lib::lemma_len_subset(
                            vstd::set_lib::set_int_range(0, n as int),
                            done_set,
                        );
                    }
                }
                return None;
            }
        }
        round = round + 1;
    }
}

} // verus!
