//! Firing steps of a process graph against a ticket, and advancing a
//! ticket from one user or callback event until nothing more can fire.

use vstd::prelude::*;
use crate::mask::{all_bits, bit, first_bits, lemma_set_bit};
use crate::process::{Event, ProcessGraph, Step};
use crate::ticket::{
    CallbackTask, ExecuteErr, NewUserTicket, NewUserTicketType, SingleExecState, Ticket,
    TicketStatus, touched,
};

verus! {

/// What a callback task says: ticket, step, whether the payload goes along,
/// and the callbacks.
pub type TaskView = (i32, usize, bool, Seq<String>);

impl View for CallbackTask {
    type V = TaskView;

    open spec fn view(&self) -> TaskView {
        (self.ticket_id, self.node, self.with_payload, self.callbacks@)
    }
}

pub open spec fn opt_task_view(t: Option<CallbackTask>) -> Option<TaskView> {
    match t {
        Some(c) => Some(c@),
        None => None,
    }
}

/// `m` with the bit of step `k` set.
pub open spec fn with_bit(m: u64, k: usize) -> u64 {
    m | (1u64 << (k as u64))
}

/// Whether step `s` may fire under mask `m`: a `Complete` step once every
/// step but the last is done, any other once its prerequisites are.
pub open spec fn ready(g: Seq<Step>, m: u64, s: usize) -> bool {
    if g[s as int].event == Event::Complete {
        first_bits(m, (g.len() - 1) as nat)
    } else {
        all_bits(m, g[s as int].required@)
    }
}

/// The entries among the first `k` of `next` that may fire under `m`, in order.
pub open spec fn ready_prefix(g: Seq<Step>, m: u64, next: Seq<usize>, k: int) -> Seq<usize>
    decreases k,
{
    if k <= 0 {
        Seq::empty()
    } else {
        let p = ready_prefix(g, m, next, k - 1);
        if ready(g, m, next[k - 1]) {
            p.push(next[k - 1])
        } else {
            p
        }
    }
}

/// The successors of step `n` that may fire under `m`, in the order of `next`.
pub open spec fn ready_succs(g: Seq<Step>, m: u64, n: usize) -> Seq<usize> {
    ready_prefix(g, m, g[n as int].next@, g[n as int].next@.len() as int)
}

/// The callbacks of step `n`, if it has any.
pub open spec fn task_for(g: Seq<Step>, tid: i32, n: usize, with_payload: bool) -> Option<TaskView> {
    match g[n as int].callbacks {
        Some(c) => if c@.len() > 0 {
            Some((tid, n, with_payload, c@))
        } else {
            None
        },
        None => None,
    }
}

/// The user that an `Approve` or `Notify` step addresses.
pub open spec fn target(g: Seq<Step>, n: usize) -> String {
    g[n as int].args.unwrap()@[0]
}

/// Events that a user request or a callback may fire directly.
pub open spec fn user_fireable(e: Event) -> bool {
    e == Event::Initiate || e == Event::Approve || e == Event::BlockingTask
}

/// The ticket after a user request fires step `n`.
pub open spec fn user_ticket(t: Ticket, n: usize, now: i64) -> Ticket {
    touched(t, with_bit(t.complete, n), now)
}

/// The callbacks that a user request on step `n` hands out: none for a
/// `BlockingTask`, whose callbacks are what sent the request.
pub open spec fn user_task(g: Seq<Step>, tid: i32, n: usize, with_payload: bool) -> Option<TaskView> {
    if g[n as int].event == Event::BlockingTask {
        None
    } else {
        task_for(g, tid, n, with_payload)
    }
}

/// The ticket after step `n` fires because its prerequisites are met.
pub open spec fn auto_ticket(g: Seq<Step>, t: Ticket, n: usize, now: i64) -> Ticket {
    match g[n as int].event {
        Event::Approve => t,
        Event::Notify => touched(t, with_bit(t.complete, n), t.updated_at),
        Event::NonBlockingTask => touched(t, with_bit(t.complete, n), now),
        _ => touched(t, t.complete, now),
    }
}

/// The user action that step `n` asks for when it fires on its own.
pub open spec fn auto_action(g: Seq<Step>, tid: i32, n: usize) -> Option<NewUserTicket> {
    match g[n as int].event {
        Event::Approve => Some(
            NewUserTicket {
                type_: NewUserTicketType::ApproveRequest,
                ticket_id: tid,
                node: n,
                username: Some(target(g, n)),
            },
        ),
        Event::Notify => Some(
            NewUserTicket {
                type_: NewUserTicketType::Notify,
                ticket_id: tid,
                node: n,
                username: Some(target(g, n)),
            },
        ),
        Event::Complete => Some(
            NewUserTicket {
                type_: NewUserTicketType::Completion,
                ticket_id: tid,
                node: n,
                username: None,
            },
        ),
        _ => None,
    }
}

/// The successors that become ready when step `n` fires on its own, the
/// ticket's mask being `m` afterwards. A `Complete` step has none.
pub open spec fn auto_succs(g: Seq<Step>, m: u64, n: usize) -> Seq<usize> {
    if g[n as int].event == Event::Complete {
        Seq::empty()
    } else {
        ready_succs(g, m, n)
    }
}

/// The callbacks that step `n` hands out when it fires on its own: all but
/// an `Approve` step's, which wait for the approval.
pub open spec fn auto_task(g: Seq<Step>, tid: i32, n: usize) -> Option<TaskView> {
    if g[n as int].event == Event::Approve {
        None
    } else {
        task_for(g, tid, n, false)
    }
}

fn clone_strings(v: &Vec<String>) -> (r: Vec<String>)
    ensures
        r@ == v@,
{
    let mut r: Vec<String> = Vec::new();
    let mut i: usize = 0;
    while i < v.len()
        invariant
            i <= v@.len(),
            r@ == v@.take(i as int),
        decreases v.len() - i,
    {
        r.push(v[i].clone());
        i = i + 1;
    }
    assert(v@.take(i as int) =~= v@);
    r
}

fn make_task(g: &ProcessGraph, tid: i32, n: usize, with_payload: bool) -> (r: Option<CallbackTask>)
    requires
        g.wf(),
        n < g@.len(),
    ensures
        opt_task_view(r) == task_for(g@, tid, n, with_payload),
{
    match &g.steps()[n].callbacks {
        Some(c) => if c.len() > 0 {
            Some(CallbackTask { ticket_id: tid, node: n, with_payload, callbacks: clone_strings(c) })
        } else {
            None
        },
        None => None,
    }
}

fn target_of(g: &ProcessGraph, n: usize) -> (r: String)
    requires
        g.wf(),
        n < g@.len(),
        g@[n as int].event == Event::Approve || g@[n as int].event == Event::Notify,
    ensures
        r == target(g@, n),
{
    assert(crate::process::has_target(g@[n as int]));
    match &g.steps()[n].args {
        Some(a) => a[0].clone(),
        None => {
            assert(false);
            String::new()
        },
    }
}

/// The successors of step `n` that may fire under mask `m`.
fn ready_successors(g: &ProcessGraph, m: u64, n: usize) -> (r: Vec<usize>)
    requires
        g.wf(),
        n < g@.len(),
    ensures
        r@ == ready_succs(g@, m, n),
{
    let steps = g.steps();
    let next = &steps[n].next;
    let mut r: Vec<usize> = Vec::new();
    let mut k: usize = 0;
    while k < next.len()
        invariant
            g.wf(),
            n < g@.len(),
            steps@ == g@,
            next@ == g@[n as int].next@,
            k <= next@.len(),
            r@ == ready_prefix(g@, m, next@, k as int),
        decreases next.len() - k,
    {
        let s = next[k];
        assert(s < g@.len());
        let ok = if steps[s].event == Event::Complete {
            crate::mask::all_n_set(m, steps.len() - 1)
        } else {
            crate::mask::all_required_set(m, &steps[s].required)
        };
        if ok {
            r.push(s);
        }
        k = k + 1;
    }
    r
}

/// Fires step `current_node` for a user request (or, for a `BlockingTask`,
/// for the callback that finished it). Only `Initiate`, `Approve` and
/// `BlockingTask` steps may be fired this way; they are marked done.
pub fn execute_user_request(
    ticket: &mut Ticket,
    g: &ProcessGraph,
    current_node: usize,
    has_payload: bool,
    now: i64,
) -> (r: Result<SingleExecState, ExecuteErr>)
    requires
        g.wf(),
        current_node < g@.len(),
    ensures
        r is Ok <==> user_fireable(g@[current_node as int].event),
        r is Err ==> r == Err::<SingleExecState, ExecuteErr>(ExecuteErr::InvalidTicket)
            && *final(ticket) == *old(ticket),
        r matches Ok(st) ==> {
            &&& *final(ticket) == user_ticket(*old(ticket), current_node, now)
            &&& st.status == if g@[current_node as int].event == Event::Initiate
                && g@[current_node as int].next@.len() == 0 {
                TicketStatus::Closed
            } else {
                TicketStatus::Open
            }
            &&& st.new_ticket is None
            &&& st.completable_steps@ == ready_succs(g@, final(ticket).complete, current_node)
            &&& opt_task_view(st.task) == user_task(g@, old(ticket).id, current_node, has_payload)
        },
{
    let step = &g.steps()[current_node];
    let event = step.event;
    if event != Event::Initiate && event != Event::Approve && event != Event::BlockingTask {
        return Err(ExecuteErr::InvalidTicket);
    }
    let task = if event == Event::BlockingTask {
        None
    } else {
        make_task(g, ticket.id, current_node, has_payload)
    };
    ticket.complete = crate::mask::set_bit(ticket.complete, current_node);
    ticket.updated_at = now;
    let status = if event == Event::Initiate && step.next.len() == 0 {
        TicketStatus::Closed
    } else {
        TicketStatus::Open
    };
    let completable_steps = ready_successors(g, ticket.complete, current_node);
    Ok(SingleExecState { status, new_ticket: None, completable_steps, task })
}

/// Fires step `current_node` because its prerequisites are met. An
/// `Approve` step asks its user for approval and stays undone; a `Notify`
/// step notifies its user and is done; a `NonBlockingTask` is done at once;
/// a `BlockingTask` waits for its callback; a `Complete` step completes the
/// ticket. An `Initiate` step cannot be reached this way.
pub fn execute_completable(ticket: &mut Ticket, current_node: usize, process: &ProcessGraph, now: i64) -> (r:
    Result<SingleExecState, ExecuteErr>)
    requires
        process.wf(),
        current_node < process@.len(),
    ensures
        r is Err <==> process@[current_node as int].event == Event::Initiate,
        r is Err ==> r == Err::<SingleExecState, ExecuteErr>(ExecuteErr::InvalidEvent)
            && *final(ticket) == *old(ticket),
        r matches Ok(st) ==> {
            &&& *final(ticket) == auto_ticket(process@, *old(ticket), current_node, now)
            &&& st.status == TicketStatus::Open
            &&& st.new_ticket == auto_action(process@, old(ticket).id, current_node)
            &&& st.completable_steps@ == auto_succs(process@, final(ticket).complete, current_node)
            &&& opt_task_view(st.task) == auto_task(process@, old(ticket).id, current_node)
        },
{
    let g = process;
    let event = g.steps()[current_node].event;
    let tid = ticket.id;
    let task = if event == Event::Approve {
        None
    } else {
        make_task(g, tid, current_node, false)
    };
    let new_ticket = match event {
        Event::Initiate => {
            return Err(ExecuteErr::InvalidEvent);
        },
        Event::Approve => {
            Some(
                NewUserTicket {
                    type_: NewUserTicketType::ApproveRequest,
                    ticket_id: tid,
                    node: current_node,
                    username: Some(target_of(g, current_node)),
                },
            )
        },
        Event::Notify => {
            ticket.complete = crate::mask::set_bit(ticket.complete, current_node);
            Some(
                NewUserTicket {
                    type_: NewUserTicketType::Notify,
                    ticket_id: tid,
                    node: current_node,
                    username: Some(target_of(g, current_node)),
                },
            )
        },
        Event::Complete => {
            ticket.updated_at = now;
            let done = NewUserTicket {
                type_: NewUserTicketType::Completion,
                ticket_id: tid,
                node: current_node,
                username: None,
            };
            return Ok(
                SingleExecState {
                    status: TicketStatus::Open,
                    new_ticket: Some(done),
                    completable_steps: Vec::new(),
                    task,
                },
            );
        },
        Event::NonBlockingTask => {
            ticket.updated_at = now;
            ticket.complete = crate::mask::set_bit(ticket.complete, current_node);
            None
        },
        Event::BlockingTask => {
            ticket.updated_at = now;
            None
        },
    };
    let completable_steps = ready_successors(g, ticket.complete, current_node);
    Ok(SingleExecState { status: TicketStatus::Open, new_ticket, completable_steps, task })
}

/// What an advancement hands back: the user actions to persist, in order,
/// and the callback tasks to dispatch once the advancement is committed.
#[derive(Debug)]
pub struct Advancement {
    pub actions: Vec<NewUserTicket>,
    pub tasks: Vec<CallbackTask>,
}

pub open spec fn task_views(v: Seq<CallbackTask>) -> Seq<TaskView> {
    v.map_values(|c: CallbackTask| c@)
}

pub open spec fn opt_push<A>(s: Seq<A>, a: Option<A>) -> Seq<A> {
    match a {
        Some(x) => s.push(x),
        None => s,
    }
}

/// The state of an advancement between two automatic firings: the ticket,
/// the queue of steps that became ready (those before `head` have fired),
/// what was emitted so far, and whether a firing failed.
pub struct Run {
    pub ticket: Ticket,
    pub queue: Seq<usize>,
    pub head: nat,
    pub actions: Seq<NewUserTicket>,
    pub tasks: Seq<TaskView>,
    pub failed: bool,
}

pub open spec fn finished(s: Run) -> bool {
    s.failed || s.head >= s.queue.len()
}

/// The state after a user request fires step `n`, before any automatic firing.
pub open spec fn start(g: Seq<Step>, t: Ticket, n: usize, with_payload: bool, now: i64) -> Run {
    let t1 = user_ticket(t, n, now);
    Run {
        ticket: t1,
        queue: ready_succs(g, t1.complete, n),
        head: 0,
        actions: Seq::empty(),
        tasks: opt_push(Seq::empty(), user_task(g, t.id, n, with_payload)),
        failed: false,
    }
}

/// Fires the step at the head of the queue, appending the steps that it
/// makes ready to the back of the queue.
pub open spec fn run_step(g: Seq<Step>, now: i64, s: Run) -> Run {
    if finished(s) {
        s
    } else {
        let n = s.queue[s.head as int];
        if g[n as int].event == Event::Initiate {
            Run { failed: true, ..s }
        } else {
            let t = auto_ticket(g, s.ticket, n, now);
            Run {
                ticket: t,
                queue: s.queue + auto_succs(g, t.complete, n),
                head: s.head + 1,
                actions: opt_push(s.actions, auto_action(g, s.ticket.id, n)),
                tasks: opt_push(s.tasks, auto_task(g, s.ticket.id, n)),
                failed: false,
            }
        }
    }
}

/// `k` automatic firings from `s`.
pub open spec fn run(g: Seq<Step>, now: i64, s: Run, k: nat) -> Run
    decreases k,
{
    if k == 0 {
        s
    } else {
        run_step(g, now, run(g, now, s, (k - 1) as nat))
    }
}

/// Whether `r` and the final ticket `t` are what the finished run `s` gives.
pub open spec fn outcome(s: Run, r: Result<Advancement, ExecuteErr>, t: Ticket) -> bool {
    &&& t == s.ticket
    &&& if s.failed {
        r == Err::<Advancement, ExecuteErr>(ExecuteErr::InvalidEvent)
    } else {
        r matches Ok(a) && a.actions@ == s.actions && task_views(a.tasks@) == s.tasks
    }
}

/// The result `r` and final ticket `t1` of advancing `t0` from a request on
/// step `n`: the request fires `n`, then the queue of ready steps is drained
/// in order until it is empty or a firing fails.
pub open spec fn advanced(
    g: Seq<Step>,
    t0: Ticket,
    n: usize,
    with_payload: bool,
    now: i64,
    r: Result<Advancement, ExecuteErr>,
    t1: Ticket,
) -> bool {
    if !user_fireable(g[n as int].event) {
        r == Err::<Advancement, ExecuteErr>(ExecuteErr::InvalidTicket) && t1 == t0
    } else {
        exists|k: nat|
            finished(#[trigger] run(g, now, start(g, t0, n, with_payload, now), k)) && outcome(
                run(g, now, start(g, t0, n, with_payload, now), k),
                r,
                t1,
            )
    }
}

/// The number of paths of `next` edges that start at step `n`.
pub open spec fn paths(g: Seq<Step>, rank: Seq<usize>, n: int) -> nat
    decreases rank[n], g[n].next@.len() + 1,
{
    1 + succ_paths(g, rank, n, g[n].next@.len() as int)
}

/// The paths that start at the first `k` successors of step `n`.
pub open spec fn succ_paths(g: Seq<Step>, rank: Seq<usize>, n: int, k: int) -> nat
    decreases rank[n], k,
{
    if k <= 0 {
        0
    } else {
        let s = g[n].next@[k - 1] as int;
        succ_paths(g, rank, n, k - 1) + if rank[s] < rank[n] {
            paths(g, rank, s)
        } else {
            0
        }
    }
}

/// The paths that start at the steps in `q`: a bound on what is left to fire.
pub open spec fn queue_paths(g: Seq<Step>, rank: Seq<usize>, q: Seq<usize>) -> nat
    decreases q.len(),
{
    if q.len() == 0 {
        0
    } else {
        paths(g, rank, q[0] as int) + queue_paths(g, rank, q.drop_first())
    }
}

proof fn lemma_queue_paths_append(g: Seq<Step>, rank: Seq<usize>, a: Seq<usize>, b: Seq<usize>)
    ensures
        queue_paths(g, rank, a + b) == queue_paths(g, rank, a) + queue_paths(g, rank, b),
    decreases a.len(),
{
    if a.len() == 0 {
        assert(a + b =~= b);
    } else {
        assert((a + b).drop_first() =~= a.drop_first() + b);
        lemma_queue_paths_append(g, rank, a.drop_first(), b);
    }
}

proof fn lemma_ready_prefix_paths(g: Seq<Step>, rank: Seq<usize>, m: u64, n: int, k: int)
    requires
        crate::process::ranked(g, rank),
        0 <= n < g.len(),
        0 <= k <= g[n].next@.len(),
    ensures
        queue_paths(g, rank, ready_prefix(g, m, g[n].next@, k)) <= succ_paths(g, rank, n, k),
        forall|i: int|
            0 <= i < ready_prefix(g, m, g[n].next@, k).len() ==> #[trigger] ready_prefix(
                g,
                m,
                g[n].next@,
                k,
            )[i] < g.len(),
    decreases k,
{
    if k > 0 {
        lemma_ready_prefix_paths(g, rank, m, n, k - 1);
        let x = g[n].next@[k - 1];
        assert(rank[x as int] < rank[n]);
        let p = ready_prefix(g, m, g[n].next@, k - 1);
        assert(succ_paths(g, rank, n, k) == succ_paths(g, rank, n, k - 1) + paths(g, rank, x as int));
        if ready(g, m, x) {
            lemma_queue_paths_append(g, rank, p, seq![x]);
            assert(seq![x].drop_first() =~= Seq::<usize>::empty());
            assert(queue_paths(g, rank, seq![x]) == paths(g, rank, x as int) + queue_paths(g, rank, Seq::<usize>::empty()));
            assert(p.push(x) == p + seq![x]);
        }
    }
}

proof fn lemma_run_stays(g: Seq<Step>, now: i64, s: Run, k: nat, j: nat)
    requires
        finished(run(g, now, s, k)),
        k <= j,
    ensures
        run(g, now, s, j) == run(g, now, s, k),
    decreases j - k,
{
    if j > k {
        lemma_run_stays(g, now, s, k, (j - 1) as nat);
    }
}

/// Advances `ticket` from a request on step `node`: fires that step, then
/// every step that becomes ready, first come first fired, and collects the
/// user actions and callback tasks that the firings produce.
pub fn update_internal(ticket: &mut Ticket, g: &ProcessGraph, node: usize, has_payload: bool, now: i64) -> (r:
    Result<Advancement, ExecuteErr>)
    requires
        g.wf(),
        node < g@.len(),
    ensures
        advanced(g@, *old(ticket), node, has_payload, now, r, *final(ticket)),
{
    let ghost t0 = *ticket;
    let first = match execute_user_request(ticket, g, node, has_payload, now) {
        Err(e) => {
            return Err(e);
        },
        Ok(st) => st,
    };
    let ghost s0 = start(g@, t0, node, has_payload, now);
    let mut queue = first.completable_steps;
    let mut tasks: Vec<CallbackTask> = Vec::new();
    match first.task {
        Some(t) => tasks.push(t),
        None => {},
    }
    let mut actions: Vec<NewUserTicket> = Vec::new();
    let mut head: usize = 0;
    let ghost mut k: nat = 0;
    proof {
        lemma_ready_prefix_paths(g@, g.rank(), ticket.complete, node as int, g@[node as int].next@.len() as int);
        assert(task_views(tasks@) =~= s0.tasks);
    }
    while head < queue.len()
        invariant
            g.wf(),
            node < g@.len(),
            user_fireable(g@[node as int].event),
            s0 == start(g@, t0, node, has_payload, now),
            t0 == *old(ticket),
            head <= queue@.len(),
            forall|i: int| 0 <= i < queue@.len() ==> #[trigger] queue@[i] < g@.len(),
            run(g@, now, s0, k) == (Run {
                ticket: *ticket,
                queue: queue@,
                head: head as nat,
                actions: actions@,
                tasks: task_views(tasks@),
                failed: false,
            }),
        decreases queue_paths(g@, g.rank(), queue@.subrange(head as int, queue@.len() as int)),
    {
        let n = queue[head];
        let ghost before = run(g@, now, s0, k);
        let ghost rest = queue@.subrange(head as int, queue@.len() as int);
        let st = match execute_completable(ticket, n, g, now) {
            Err(e) => {
                proof {
                    assert(run(g@, now, s0, k + 1) == run_step(g@, now, before));
                    assert(run(g@, now, s0, k + 1).failed);
                    assert(run(g@, now, s0, k + 1).ticket == *ticket);
                    assert(e == ExecuteErr::InvalidEvent);
                    k = k + 1;
                    assert(finished(run(g@, now, s0, k)));
                    assert(outcome(run(g@, now, s0, k), Err::<Advancement, ExecuteErr>(e), *ticket));
                    assert(finished(run(g@, now, start(g@, t0, node, has_payload, now), k)));
                }
                return Err(e);
            },
            Ok(st) => st,
        };
        let ghost q0 = queue@;
        let succs = st.completable_steps;
        proof {
            if g@[n as int].event != Event::Complete {
                lemma_ready_prefix_paths(g@, g.rank(), ticket.complete, n as int, g@[n as int].next@.len() as int);
            }
        }
        let mut i: usize = 0;
        while i < succs.len()
            invariant
                i <= succs@.len(),
                queue@ == q0 + succs@.take(i as int),
            decreases succs.len() - i,
        {
            queue.push(succs[i]);
            i = i + 1;
            proof {
                assert(q0 + succs@.take(i as int) =~= (q0 + succs@.take((i - 1) as int)).push(succs@[i - 1]));
            }
        }
        proof {
            assert(succs@.take(i as int) =~= succs@);
        }
        match st.new_ticket {
            Some(a) => actions.push(a),
            None => {},
        }
        match st.task {
            Some(t) => tasks.push(t),
            None => {},
        }
        head = head + 1;
        proof {
            k = k + 1;
            assert(task_views(tasks@) =~= run(g@, now, s0, k).tasks);
            assert(actions@ =~= run(g@, now, s0, k).actions);
            assert forall|j: int| 0 <= j < queue@.len() implies #[trigger] queue@[j] < g@.len() by {
                if j >= q0.len() {
                    assert(queue@[j] == succs@[j - q0.len()]);
                }
            }
            let rest2 = queue@.subrange(head as int, queue@.len() as int);
            assert(rest2 =~= rest.drop_first() + succs@);
            lemma_queue_paths_append(g@, g.rank(), rest.drop_first(), succs@);
        }
    }
    proof {
        assert(finished(run(g@, now, s0, k)));
    }
    Ok(Advancement { actions, tasks })
}

/// Two results of an advancement agree: the same error, or the same actions
/// and callback tasks in the same order.
pub open spec fn same_result(a: Result<Advancement, ExecuteErr>, b: Result<Advancement, ExecuteErr>) -> bool {
    match (a, b) {
        (Ok(x), Ok(y)) => x.actions@ == y.actions@ && task_views(x.tasks@) == task_views(y.tasks@),
        (Err(x), Err(y)) => x == y,
        _ => false,
    }
}

/// Advancement depends on nothing but its inputs: two advancements of equal
/// tickets, on the same graph, from the same request at the same time, give
/// the same result and leave equal tickets.
pub proof fn lemma_advance_deterministic(
    g: Seq<Step>,
    t0: Ticket,
    n: usize,
    with_payload: bool,
    now: i64,
    r1: Result<Advancement, ExecuteErr>,
    t1: Ticket,
    r2: Result<Advancement, ExecuteErr>,
    t2: Ticket,
)
    requires
        advanced(g, t0, n, with_payload, now, r1, t1),
        advanced(g, t0, n, with_payload, now, r2, t2),
    ensures
        same_result(r1, r2),
        t1 == t2,
{
    if user_fireable(g[n as int].event) {
        let s0 = start(g, t0, n, with_payload, now);
        let k1 = choose|k: nat| finished(#[trigger] run(g, now, s0, k)) && outcome(run(g, now, s0, k), r1, t1);
        let k2 = choose|k: nat| finished(#[trigger] run(g, now, s0, k)) && outcome(run(g, now, s0, k), r2, t2);
        if k1 <= k2 {
            lemma_run_stays(g, now, s0, k1, k2);
        } else {
            lemma_run_stays(g, now, s0, k2, k1);
        }
    }
}

proof fn lemma_ready_prefix_ready(g: Seq<Step>, m: u64, next: Seq<usize>, k: int)
    requires
        0 <= k <= next.len(),
    ensures
        forall|i: int|
            0 <= i < ready_prefix(g, m, next, k).len() ==> ready(g, m, #[trigger] ready_prefix(g, m, next, k)[i])
                && next.contains(ready_prefix(g, m, next, k)[i]),
    decreases k,
{
    if k > 0 {
        lemma_ready_prefix_ready(g, m, next, k - 1);
        assert(next.contains(next[k - 1]));
        let p = ready_prefix(g, m, next, k - 1);
        let q = ready_prefix(g, m, next, k);
        assert forall|i: int| 0 <= i < q.len() implies ready(g, m, #[trigger] q[i]) && next.contains(q[i]) by {
            if i < p.len() {
                assert(q[i] == p[i]);
            }
        }
    }
}

/// Every step that the request puts in the queue is a successor of the
/// requested step that may fire under the mask left by the request.
pub proof fn lemma_start_queue_ready(g: Seq<Step>, t0: Ticket, n: usize, with_payload: bool, now: i64)
    requires
        0 <= n < g.len(),
    ensures
        forall|i: int|
            0 <= i < start(g, t0, n, with_payload, now).queue.len() ==> ready(
                g,
                start(g, t0, n, with_payload, now).ticket.complete,
                #[trigger] start(g, t0, n, with_payload, now).queue[i],
            ) && g[n as int].next@.contains(start(g, t0, n, with_payload, now).queue[i]),
{
    let s = start(g, t0, n, with_payload, now);
    lemma_ready_prefix_ready(g, s.ticket.complete, g[n as int].next@, g[n as int].next@.len() as int);
}

/// Every step that a firing puts in the queue is a successor of the fired
/// step that may fire under the mask left by that firing: its prerequisites
/// are done or, for a `Complete` step, every step but the last is. The
/// queue only grows at its back.
pub proof fn lemma_enqueued_ready(g: Seq<Step>, now: i64, s: Run, k: nat)
    ensures
        run(g, now, s, k).queue.is_prefix_of(run(g, now, s, k + 1).queue),
        forall|i: int|
            run(g, now, s, k).queue.len() <= i < run(g, now, s, k + 1).queue.len() ==> ready(
                g,
                run(g, now, s, k + 1).ticket.complete,
                #[trigger] run(g, now, s, k + 1).queue[i],
            ) && g[run(g, now, s, k).queue[run(g, now, s, k).head as int] as int].next@.contains(
                run(g, now, s, k + 1).queue[i],
            ),
{
    let a = run(g, now, s, k);
    let b = run(g, now, s, k + 1);
    assert(b == run_step(g, now, a));
    if !finished(a) {
        let n = a.queue[a.head as int];
        if g[n as int].event != Event::Initiate {
            let t = auto_ticket(g, a.ticket, n, now);
            if g[n as int].event != Event::Complete {
                lemma_ready_prefix_ready(g, t.complete, g[n as int].next@, g[n as int].next@.len() as int);
                assert forall|i: int| a.queue.len() <= i < b.queue.len() implies {
                    ready(g, b.ticket.complete, #[trigger] b.queue[i]) && g[n as int].next@.contains(b.queue[i])
                } by {
                    assert(b.queue[i] == ready_succs(g, t.complete, n)[i - a.queue.len()]);
                }
            }
        }
    }
}

/// Whether firing a step of this event on its own marks it done.
pub open spec fn auto_marks_done(e: Event) -> bool {
    e == Event::Notify || e == Event::NonBlockingTask
}

/// Step `j` has fired on its own during `s`, as an event that marks it done.
pub open spec fn fired_and_done(g: Seq<Step>, s: Run, j: nat) -> bool {
    exists|i: int| 0 <= i < s.head && s.queue[i] == j && auto_marks_done(g[j as int].event)
}

/// A graph's queue entries name steps of the graph.
pub open spec fn queue_in_range(g: Seq<Step>, s: Run) -> bool {
    forall|i: int| 0 <= i < s.queue.len() ==> #[trigger] s.queue[i] < g.len()
}

proof fn lemma_run_in_range(g: ProcessGraph, now: i64, s: Run, k: nat)
    requires
        g.wf(),
        queue_in_range(g@, s),
    ensures
        queue_in_range(g@, run(g@, now, s, k)),
    decreases k,
{
    if k > 0 {
        lemma_run_in_range(g, now, s, (k - 1) as nat);
        let a = run(g@, now, s, (k - 1) as nat);
        if !finished(a) {
            let n = a.queue[a.head as int];
            let t = auto_ticket(g@, a.ticket, n, now);
            if g@[n as int].event != Event::Complete {
                lemma_ready_prefix_paths(g@, g.rank(), t.complete, n as int, g@[n as int].next@.len() as int);
            }
        }
    }
}

/// After an advancement from a request on step `n`, a step is marked done
/// exactly when it was done before, or is `n`, or fired on its own as a
/// `Notify` or `NonBlockingTask`. In particular an `Approve` step is marked
/// done only by a request on it.
pub proof fn lemma_mask_records_firings(
    g: ProcessGraph,
    t0: Ticket,
    n: usize,
    with_payload: bool,
    now: i64,
    k: nat,
)
    requires
        g.wf(),
        n < g@.len(),
        user_fireable(g@[n as int].event),
    ensures
        forall|j: nat|
            #![trigger bit(run(g@, now, start(g@, t0, n, with_payload, now), k).ticket.complete, j)]
            bit(run(g@, now, start(g@, t0, n, with_payload, now), k).ticket.complete, j) <==> (bit(
                t0.complete,
                j,
            ) || j == n || fired_and_done(g@, run(g@, now, start(g@, t0, n, with_payload, now), k), j)),
    decreases k,
{
    let s0 = start(g@, t0, n, with_payload, now);
    if k == 0 {
        assert forall|j: nat| #[trigger] bit(s0.ticket.complete, j) <==> (bit(t0.complete, j) || j == n
            || fired_and_done(g@, s0, j)) by {
            if j < 64 {
                lemma_set_bit(t0.complete, n as u64, j as u64);
            }
        }
    } else {
        lemma_mask_records_firings(g, t0, n, with_payload, now, (k - 1) as nat);
        lemma_ready_prefix_paths(g@, g.rank(), s0.ticket.complete, n as int, g@[n as int].next@.len() as int);
        lemma_run_in_range(g, now, s0, (k - 1) as nat);
        let a = run(g@, now, s0, (k - 1) as nat);
        let b = run(g@, now, s0, k);
        assert(b == run_step(g@, now, a));
        if finished(a) || g@[a.queue[a.head as int] as int].event == Event::Initiate {
            assert forall|j: nat| #[trigger] bit(b.ticket.complete, j) <==> (bit(t0.complete, j) || j == n
                || fired_and_done(g@, b, j)) by {
                assert(bit(a.ticket.complete, j) <==> (bit(t0.complete, j) || j == n
                    || fired_and_done(g@, a, j)));
                if fired_and_done(g@, a, j) {
                    let i = choose|i: int| 0 <= i < a.head && a.queue[i] == j && auto_marks_done(g@[j as int].event);
                    assert(b.queue[i] == a.queue[i]);
                }
                if fired_and_done(g@, b, j) {
                    let i = choose|i: int| 0 <= i < b.head && b.queue[i] == j && auto_marks_done(g@[j as int].event);
                    assert(b.queue[i] == a.queue[i]);
                }
            }
        } else {
            let m = a.queue[a.head as int];
            {
                assert forall|j: nat| #[trigger] bit(b.ticket.complete, j) <==> (bit(t0.complete, j) || j == n
                    || fired_and_done(g@, b, j)) by {
                    assert(bit(a.ticket.complete, j) <==> (bit(t0.complete, j) || j == n
                        || fired_and_done(g@, a, j)));
                    if j < 64 && auto_marks_done(g@[m as int].event) {
                        lemma_set_bit(a.ticket.complete, m as u64, j as u64);
                    }
                    if fired_and_done(g@, a, j) {
                        let i = choose|i: int| 0 <= i < a.head && a.queue[i] == j && auto_marks_done(g@[j as int].event);
                        assert(b.queue[i] == a.queue[i]);
                    }
                    if fired_and_done(g@, b, j) {
                        let i = choose|i: int| 0 <= i < b.head && b.queue[i] == j && auto_marks_done(g@[j as int].event);
                        assert(b.queue[i] == a.queue[i]);
                        if i < a.head {
                            assert(fired_and_done(g@, a, j));
                        }
                    }
                    if j == m && auto_marks_done(g@[m as int].event) {
                        assert(b.queue[a.head as int] == m);
                    }
                }
            }
        }
    }
}

/// Firing steps changes only a ticket's mask and update time.
pub proof fn lemma_run_keeps_status(g: Seq<Step>, now: i64, s: Run, k: nat)
    ensures
        run(g, now, s, k).ticket.status == s.ticket.status,
        run(g, now, s, k).ticket.id == s.ticket.id,
    decreases k,
{
    if k > 0 {
        lemma_run_keeps_status(g, now, s, (k - 1) as nat);
    }
}

/// An advancement leaves the ticket's status as it was.
pub proof fn lemma_advance_keeps_status(
    g: Seq<Step>,
    t0: Ticket,
    n: usize,
    with_payload: bool,
    now: i64,
    r: Result<Advancement, ExecuteErr>,
    t1: Ticket,
)
    requires
        advanced(g, t0, n, with_payload, now, r, t1),
    ensures
        t1.status == t0.status,
        t1.id == t0.id,
{
    if user_fireable(g[n as int].event) {
        let s0 = start(g, t0, n, with_payload, now);
        let k = choose|k: nat| finished(#[trigger] run(g, now, s0, k)) && outcome(run(g, now, s0, k), r, t1);
        lemma_run_keeps_status(g, now, s0, k);
    }
}

/// Every bit of `m1` is set in `m2`.
pub open spec fn bits_within(m1: u64, m2: u64) -> bool {
    forall|j: nat| #[trigger] bit(m1, j) ==> bit(m2, j)
}

/// What holds of every state of a run from a request: the queue names steps
/// of the graph that stay ready, and every action is for a step of the graph.
pub open spec fn run_inv(g: Seq<Step>, s: Run) -> bool {
    &&& queue_in_range(g, s)
    &&& forall|p: int| 0 <= p < s.queue.len() ==> ready(g, s.ticket.complete, #[trigger] s.queue[p])
    &&& forall|i: int| 0 <= i < s.actions.len() ==> #[trigger] s.actions[i].node < g.len()
}

proof fn lemma_ready_grows(g: Seq<Step>, m1: u64, m2: u64, x: usize)
    requires
        bits_within(m1, m2),
        ready(g, m1, x),
    ensures
        ready(g, m2, x),
{
    if g[x as int].event == Event::Complete {
        assert forall|k: nat| k < (g.len() - 1) as nat implies bit(m2, k) by {
            assert(bit(m1, k));
        }
    } else {
        assert forall|i: int| 0 <= i < g[x as int].required@.len() implies bit(m2, g[x as int].required@[i] as nat) by {
            assert(bit(m1, g[x as int].required@[i] as nat));
        }
    }
}

proof fn lemma_run_step_inv(g: ProcessGraph, now: i64, a: Run)
    requires
        g.wf(),
        run_inv(g@, a),
    ensures
        run_inv(g@, run_step(g@, now, a)),
        bits_within(a.ticket.complete, run_step(g@, now, a).ticket.complete),
        a.actions.is_prefix_of(run_step(g@, now, a).actions),
        run_step(g@, now, a).actions.len() <= a.actions.len() + 1,
        run_step(g@, now, a).actions.len() == a.actions.len() + 1 ==> !finished(a) && run_step(
            g@,
            now,
            a,
        ).actions.last() == auto_action(g@, a.ticket.id, a.queue[a.head as int]).unwrap()
            && auto_action(g@, a.ticket.id, a.queue[a.head as int]) is Some,
{
    let b = run_step(g@, now, a);
    if !finished(a) {
        let n = a.queue[a.head as int];
        if g@[n as int].event != Event::Initiate {
            let t = auto_ticket(g@, a.ticket, n, now);
            assert(bits_within(a.ticket.complete, t.complete)) by {
                assert forall|j: nat| #[trigger] bit(a.ticket.complete, j) implies bit(t.complete, j) by {
                    if j < 64 && auto_marks_done(g@[n as int].event) {
                        lemma_set_bit(a.ticket.complete, n as u64, j as u64);
                    }
                }
            }
            let succs = auto_succs(g@, t.complete, n);
            if g@[n as int].event != Event::Complete {
                lemma_ready_prefix_paths(g@, g.rank(), t.complete, n as int, g@[n as int].next@.len() as int);
                lemma_ready_prefix_ready(g@, t.complete, g@[n as int].next@, g@[n as int].next@.len() as int);
            }
            assert forall|p: int| 0 <= p < b.queue.len() implies ready(g@, b.ticket.complete, #[trigger] b.queue[p]) by {
                if p < a.queue.len() {
                    assert(b.queue[p] == a.queue[p]);
                    lemma_ready_grows(g@, a.ticket.complete, t.complete, a.queue[p]);
                } else {
                    assert(b.queue[p] == succs[p - a.queue.len()]);
                }
            }
            assert forall|p: int| 0 <= p < b.queue.len() implies #[trigger] b.queue[p] < g@.len() by {
                if p >= a.queue.len() {
                    assert(b.queue[p] == succs[p - a.queue.len()]);
                }
            }
            assert forall|i: int| 0 <= i < b.actions.len() implies #[trigger] b.actions[i].node < g@.len() by {
                if i < a.actions.len() {
                    assert(b.actions[i] == a.actions[i]);
                }
            }
        }
    }
}

proof fn lemma_run_inv(g: ProcessGraph, now: i64, s: Run, k: nat)
    requires
        g.wf(),
        run_inv(g@, s),
    ensures
        run_inv(g@, run(g@, now, s, k)),
    decreases k,
{
    if k > 0 {
        lemma_run_inv(g, now, s, (k - 1) as nat);
        lemma_run_step_inv(g, now, run(g@, now, s, (k - 1) as nat));
    }
}

proof fn lemma_start_inv(g: ProcessGraph, t0: Ticket, n: usize, with_payload: bool, now: i64)
    requires
        g.wf(),
        n < g@.len(),
    ensures
        run_inv(g@, start(g@, t0, n, with_payload, now)),
{
    let s0 = start(g@, t0, n, with_payload, now);
    lemma_ready_prefix_paths(g@, g.rank(), s0.ticket.complete, n as int, g@[n as int].next@.len() as int);
    lemma_start_queue_ready(g@, t0, n, with_payload, now);
}

/// The `i`-th action of `run(s, k)` was emitted by the firing after `run(s, k1)`.
proof fn lemma_emitted_at(g: ProcessGraph, now: i64, s: Run, k: nat, i: int) -> (k1: nat)
    requires
        g.wf(),
        run_inv(g@, s),
        0 <= i < run(g@, now, s, k).actions.len(),
        s.actions.len() <= i,
    ensures
        k1 < k,
        run(g@, now, s, k1).actions.len() == i,
        run(g@, now, s, k1 + 1).actions.len() == i + 1,
        run(g@, now, s, k1 + 1).actions[i] == run(g@, now, s, k).actions[i],
    decreases k,
{
    lemma_run_inv(g, now, s, (k - 1) as nat);
    let a = run(g@, now, s, (k - 1) as nat);
    lemma_run_step_inv(g, now, a);
    if i < a.actions.len() {
        let k1 = lemma_emitted_at(g, now, s, (k - 1) as nat, i);
        assert(run(g@, now, s, k).actions[i] == a.actions[i]);
        k1
    } else {
        (k - 1) as nat
    }
}

/// When an advancement completes a ticket, every step but the last is
/// already done. So any action that follows a completion in the result is
/// for the last step, or for a step that was done before the completion.
pub proof fn lemma_completion_after_all_done(
    g: ProcessGraph,
    t0: Ticket,
    n: usize,
    with_payload: bool,
    now: i64,
    k: nat,
    i: int,
) -> (k1: nat)
    requires
        g.wf(),
        n < g@.len(),
        0 <= i < run(g@, now, start(g@, t0, n, with_payload, now), k).actions.len(),
        run(g@, now, start(g@, t0, n, with_payload, now), k).actions[i].type_ == NewUserTicketType::Completion,
    ensures
        k1 < k,
        run(g@, now, start(g@, t0, n, with_payload, now), k1).actions.len() == i,
        first_bits(run(g@, now, start(g@, t0, n, with_payload, now), k1).ticket.complete, (g@.len() - 1) as nat),
        forall|j: int|
            i < j < run(g@, now, start(g@, t0, n, with_payload, now), k).actions.len() ==> {
                let node = #[trigger] run(g@, now, start(g@, t0, n, with_payload, now), k).actions[j].node;
                node == g@.len() - 1 || bit(
                    run(g@, now, start(g@, t0, n, with_payload, now), k1).ticket.complete,
                    node as nat,
                )
            },
{
    let s0 = start(g@, t0, n, with_payload, now);
    lemma_start_inv(g, t0, n, with_payload, now);
    let k1 = lemma_emitted_at(g, now, s0, k, i);
    let a = run(g@, now, s0, k1);
    lemma_run_inv(g, now, s0, k1);
    lemma_run_step_inv(g, now, a);
    let q = a.queue[a.head as int];
    assert(auto_action(g@, a.ticket.id, q).unwrap().type_ == NewUserTicketType::Completion);
    assert(g@[q as int].event == Event::Complete);
    assert(ready(g@, a.ticket.complete, q));
    lemma_run_inv(g, now, s0, k);
    let s = run(g@, now, s0, k);
    assert forall|j: int| i < j < s.actions.len() implies {
        let node = #[trigger] s.actions[j].node;
        node == g@.len() - 1 || bit(a.ticket.complete, node as nat)
    } by {
        let node = s.actions[j].node;
        assert(node < g@.len());
        if node < g@.len() - 1 {
            assert(bit(a.ticket.complete, node as nat));
        }
    }
    k1
}

/// Every queued step has a rank below `r0`.
pub open spec fn queue_below(g: ProcessGraph, s: Run, r0: usize) -> bool {
    forall|p: int|
        0 <= p < s.queue.len() ==> #[trigger] s.queue[p] < g@.len() && g.rank()[s.queue[p] as int] < r0
}

proof fn lemma_successors_below(g: ProcessGraph, m: u64, n: usize, r0: usize)
    requires
        g.wf(),
        n < g@.len(),
        g.rank()[n as int] <= r0,
    ensures
        forall|p: int|
            0 <= p < ready_succs(g@, m, n).len() ==> #[trigger] ready_succs(g@, m, n)[p] < g@.len()
                && g.rank()[ready_succs(g@, m, n)[p] as int] < r0,
{
    lemma_ready_prefix_ready(g@, m, g@[n as int].next@, g@[n as int].next@.len() as int);
    assert forall|p: int| 0 <= p < ready_succs(g@, m, n).len() implies #[trigger] ready_succs(g@, m, n)[p]
        < g@.len() && g.rank()[ready_succs(g@, m, n)[p] as int] < r0 by {
        let x = ready_succs(g@, m, n)[p];
        let k = choose|k: int| 0 <= k < g@[n as int].next@.len() && g@[n as int].next@[k] == x;
        assert(g@[n as int].next@[k] < g@.len());
    }
}

proof fn lemma_run_stays_below(g: ProcessGraph, now: i64, s: Run, k: nat)
    requires
        g.wf(),
        !s.failed,
        queue_below(g, s, g.rank()[0]),
    ensures
        !run(g@, now, s, k).failed,
        queue_below(g, run(g@, now, s, k), g.rank()[0]),
    decreases k,
{
    if k > 0 {
        lemma_run_stays_below(g, now, s, (k - 1) as nat);
        let a = run(g@, now, s, (k - 1) as nat);
        let b = run(g@, now, s, k);
        if !finished(a) {
            let n = a.queue[a.head as int];
            assert(n != 0);
            let t = auto_ticket(g@, a.ticket, n, now);
            if g@[n as int].event != Event::Complete {
                lemma_successors_below(g, t.complete, n, g.rank()[0]);
            }
            assert forall|p: int| 0 <= p < b.queue.len() implies #[trigger] b.queue[p] < g@.len()
                && g.rank()[b.queue[p] as int] < g.rank()[0] by {
                if p >= a.queue.len() {
                    assert(b.queue[p] == auto_succs(g@, t.complete, n)[p - a.queue.len()]);
                }
            }
        }
    }
}

/// Advancing from the first step never fails: no path of successors leads
/// back to the one `Initiate` step.
pub proof fn lemma_initiate_never_fails(
    g: ProcessGraph,
    t0: Ticket,
    with_payload: bool,
    now: i64,
    r: Result<Advancement, ExecuteErr>,
    t1: Ticket,
)
    requires
        g.wf(),
        advanced(g@, t0, 0, with_payload, now, r, t1),
    ensures
        r is Ok,
{
    let s0 = start(g@, t0, 0, with_payload, now);
    lemma_successors_below(g, s0.ticket.complete, 0, g.rank()[0]);
    let k = choose|k: nat| finished(#[trigger] run(g@, now, s0, k)) && outcome(run(g@, now, s0, k), r, t1);
    lemma_run_stays_below(g, now, s0, k);
}

} // verus!
