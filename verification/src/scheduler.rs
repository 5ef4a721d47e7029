//! The round-robin scheduling decisions, taken over a model of the
//! schedule queue.
//!
//! The queue is a vector acting as a round-robin: the first element is the
//! next process to consider, and a process whose time slice ended is
//! rotated to the back. The kernel wraps every process in a lock; whether
//! a process's lock could be taken is an outside event, so each decision
//! takes the locks' availability as an input, one flag per queue slot, and
//! the embedder performs the actual switch (or halts and retries) on the
//! decision handed back.

use vstd::prelude::*;

verus! {

/// The scheduling states of a process.
#[derive(Debug, Clone, Copy, PartialEq, Eq, Structural)]
pub enum ProcessState {
    Stopped,
    Scheduled,
    Running,
}

/// One process as the scheduler sees it: its identity and its scheduling
/// state.
#[derive(Debug, Clone, Copy, PartialEq, Eq, Structural)]
pub struct Process {
    pub pid: u64,
    pub pstate: ProcessState,
}

/// Checks if a process is in the schedule queue, counting the currently
/// running process as queued.
pub fn is_in_schedule_queue(
    queue: &Vec<Process>,
    current: &Option<Process>,
    process: &Process,
) -> (r: bool)
    ensures
        r == ((*current matches Some(c) && c.pstate is Running && c.pid == process.pid) || exists|
            i: int,
        | 0 <= i < queue@.len() && #[trigger] queue@[i].pid == process.pid),
{
    let found_current = match current {
        Some(c) => matches!(c.pstate, ProcessState::Running) && c.pid == process.pid,
        None => false,
    };
    if found_current {
        return true;
    }
    let n = queue.len();
    let mut i: usize = 0;
    while i < n
        invariant
            n == queue@.len(),
            i <= n,
            forall|j: int| 0 <= j < i ==> #[trigger] queue@[j].pid != process.pid,
        decreases n - i,
    {
        if queue[i].pid == process.pid {
            return true;
        }
        i = i + 1;
    }
    false
}

/// Adds a process at the end of the schedule queue, changing its state to
/// scheduled. The process must be stopped and not queued already: adding a
/// running or queued process is a caller bookkeeping error.
pub fn add_to_schedule_queue(queue: &mut Vec<Process>, current: &Option<Process>, process: Process)
    requires
        process.pstate is Stopped,
        !(*current matches Some(c) && c.pstate is Running && c.pid == process.pid),
        forall|i: int| 0 <= i < old(queue)@.len() ==> #[trigger] old(queue)@[i].pid != process.pid,
    ensures
        final(queue)@ == old(queue)@.push(
            Process { pid: process.pid, pstate: ProcessState::Scheduled },
        ),
{
    queue.push(Process { pid: process.pid, pstate: ProcessState::Scheduled });
}

/// Parses the queue to find the first process that could be locked — the
/// flags say, slot by slot, whether its lock was free — and returns its
/// index.
pub fn find_next_process_to_run(queue: &Vec<Process>, lockable: &Vec<bool>) -> (r: Option<usize>)
    requires
        lockable@.len() == queue@.len(),
    ensures
        (r matches Some(i) ==> i < queue@.len() && lockable@[i as int] && (forall|j: int|
            0 <= j < i ==> !lockable@[j])),
        r is None ==> forall|j: int| 0 <= j < queue@.len() ==> !lockable@[j],
{
    let n = queue.len();
    let mut i: usize = 0;
    while i < n
        invariant
            n == queue@.len(),
            lockable@.len() == n,
            i <= n,
            forall|j: int| 0 <= j < i ==> !lockable@[j],
        decreases n - i,
    {
        if lockable[i] {
            return Some(i);
        }
        i = i + 1;
    }
    None
}

/// One round of the queue politics, shared by `schedule` and `unschedule`:
/// the first lockable process is pulled to the front of service, the
/// current process is pushed to the back of the queue unless it is being
/// removed, and the candidate is handed back for the embedder to switch
/// to. `None` means nobody else can run: the embedder keeps running the
/// current process, or — when removing it — halts, waits for an interrupt
/// and retries with fresh lock flags.
pub fn internal_schedule(
    queue: &mut Vec<Process>,
    current: Process,
    lockable: &Vec<bool>,
    remove_self: bool,
) -> (r: Option<Process>)
    requires
        lockable@.len() == old(queue)@.len(),
    ensures
        r is None ==> final(queue)@ == old(queue)@ && (forall|j: int|
            0 <= j < old(queue)@.len() ==> !lockable@[j]),
        r matches Some(p) ==> exists|i: int|
            #![auto]
            0 <= i < old(queue)@.len() && lockable@[i] && (forall|j: int| 0 <= j < i ==> !lockable@[j])
                && p == old(queue)@[i] && final(queue)@ == (if remove_self {
                old(queue)@.remove(i)
            } else {
                old(queue)@.remove(i).push(current)
            }),
{
    let candidate_index = find_next_process_to_run(queue, lockable);
    match candidate_index {
        None => None,
        Some(index) => {
            let process_b = queue.remove(index);
            if !remove_self {
                queue.push(current);
            }
            Some(process_b)
        },
    }
}

/// Performs a process switch: decides which process runs next, rotating
/// the current one to the back of the queue. The embedder passes the lock
/// availability it observed and performs the hardware switch to the
/// process handed back.
pub fn schedule(queue: &mut Vec<Process>, current: Process, lockable: &Vec<bool>) -> (r: Option<
    Process,
>)
    requires
        lockable@.len() == old(queue)@.len(),
    ensures
        r is None ==> final(queue)@ == old(queue)@ && (forall|j: int|
            0 <= j < old(queue)@.len() ==> !lockable@[j]),
        r matches Some(p) ==> exists|i: int|
            #![auto]
            0 <= i < old(queue)@.len() && lockable@[i] && (forall|j: int| 0 <= j < i ==> !lockable@[j])
                && p == old(queue)@[i] && final(queue)@ == old(queue)@.remove(i).push(current),
{
    internal_schedule(queue, current, lockable, false)
}

/// Removes the current process from the schedule queue, marking it
/// stopped, and decides which process runs next. The current process will
/// not run again unless something re-queues it; `None` asks the embedder
/// to halt and retry, since nobody is runnable at all.
pub fn unschedule(queue: &mut Vec<Process>, current: Process, lockable: &Vec<bool>) -> (r: Option<
    Process,
>)
    requires
        lockable@.len() == old(queue)@.len(),
    ensures
        r is None ==> final(queue)@ == old(queue)@ && (forall|j: int|
            0 <= j < old(queue)@.len() ==> !lockable@[j]),
        r matches Some(p) ==> exists|i: int|
            #![auto]
            0 <= i < old(queue)@.len() && lockable@[i] && (forall|j: int| 0 <= j < i ==> !lockable@[j])
                && p == old(queue)@[i] && final(queue)@ == old(queue)@.remove(i),
{
    let stopped = Process { pid: current.pid, pstate: ProcessState::Stopped };
    internal_schedule(queue, stopped, lockable, true)
}

} // verus!
