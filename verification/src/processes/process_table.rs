//! The process table: every live process, in ascending order of pid, and the
//! placeholder that stands for "no process".

use vstd::prelude::*;
use crate::interrupts::trap::Register;
use crate::memory::page_allocator::{after_release, PageAllocator};
use super::process::{Pid, Process, ProcessState, NEVER_PID};

verus! {

/// Some process of the sequence has this pid.
pub open spec fn contains_pid(processes: Seq<Process>, pid: Pid) -> bool {
    exists|i: int| 0 <= i < processes.len() && (#[trigger] processes[i]).pid == pid
}

/// The place of the process with this pid in the sequence.
pub open spec fn position_of(processes: Seq<Process>, pid: Pid) -> int {
    choose|i: int| 0 <= i < processes.len() && (#[trigger] processes[i]).pid == pid
}

/// The process with this pid.
pub open spec fn process_of(processes: Seq<Process>, pid: Pid) -> Process {
    processes[position_of(processes, pid)]
}

/// The pids ascend strictly.
pub open spec fn sorted_by_pid(processes: Seq<Process>) -> bool {
    forall|i: int, j: int|
        0 <= i < j < processes.len()
            ==> (#[trigger] processes[i]).pid < (#[trigger] processes[j]).pid
}

/// Some process of the sequence has this pid and is runnable.
pub open spec fn is_runnable(processes: Seq<Process>, pid: Pid) -> bool {
    exists|i: int|
        0 <= i < processes.len() && (#[trigger] processes[i]).pid == pid && processes[i].state
            == ProcessState::Runnable
}

/// The pids of the runnable processes.
pub open spec fn runnable_pids(processes: Seq<Process>) -> Set<Pid> {
    Set::new(|pid: Pid| is_runnable(processes, pid))
}

/// `next` is the candidate that round robin picks behind `after`: the
/// smallest candidate above `after`, or, where none is above, the smallest
/// candidate of all.
pub open spec fn is_round_robin_successor(candidates: Set<Pid>, after: Pid, next: Pid) -> bool {
    &&& candidates.contains(next)
    &&& if exists|q: Pid| candidates.contains(q) && q > after {
        next > after && forall|q: Pid| candidates.contains(q) && q > after ==> next <= q
    } else {
        forall|q: Pid| candidates.contains(q) ==> next <= q
    }
}

/// `after` is `before` without its process `dead`: the processes that `dead`
/// was to wake are runnable with 0 in the saved `a0`, and no process is to
/// wake `dead` any more.
pub open spec fn survives(before: Process, after: Process, dead: Process) -> bool {
    &&& after.name == before.name
    &&& after.pid == before.pid
    &&& after.page_table == before.page_table
    &&& after.program_counter == before.program_counter
    &&& after.allocated_pages == before.allocated_pages
    &&& after.free_mmap_address == before.free_mmap_address
    &&& after.next_free_descriptor == before.next_free_descriptor
    &&& after.open_udp_sockets == before.open_udp_sockets
    &&& after.in_kernel_mode == before.in_kernel_mode
    &&& after.waiting_on_syscall == before.waiting_on_syscall
    &&& after.notify_on_die@ == before.notify_on_die@.remove(dead.pid)
    &&& if dead.notify_on_die@.contains(before.pid) {
        &&& after.state == ProcessState::Runnable
        &&& after.register_state.registers() == before.register_state.with(Register::a0, 0)
        &&& after.register_state.floating_registers()
            == before.register_state.floating_registers()
    } else {
        &&& after.state == before.state
        &&& after.register_state == before.register_state
    }
}

/// `after` is what is left of `before` once the process `pid` was killed.
pub open spec fn is_killed(before: Seq<Process>, after: Seq<Process>, pid: Pid) -> bool {
    if contains_pid(before, pid) {
        let k = position_of(before, pid);
        &&& after.len() == before.len() - 1
        &&& forall|i: int|
            0 <= i < after.len() ==> survives(
                before[if i < k {
                    i
                } else {
                    i + 1
                }],
                #[trigger] after[i],
                before[k],
            )
    } else {
        after == before
    }
}

/// `after` is `before` with `byte` delivered to every process of `pids`:
/// each of them that was blocked for input is runnable with the byte in its
/// saved `a0`; every other process is as it was.
pub open spec fn is_delivered(
    before: Seq<Process>,
    after: Seq<Process>,
    pids: Set<Pid>,
    byte: u8,
) -> bool {
    &&& after.len() == before.len()
    &&& forall|i: int|
        0 <= i < before.len() ==> if pids.contains(before[i].pid) {
            before[i].resumed_with(#[trigger] after[i], byte)
        } else {
            after[i] == before[i]
        }
}

/// In a sequence sorted by pid a pid names one place.
pub proof fn lemma_position_unique(processes: Seq<Process>, i: int)
    requires
        sorted_by_pid(processes),
        0 <= i < processes.len(),
    ensures
        contains_pid(processes, processes[i].pid),
        position_of(processes, processes[i].pid) == i,
{
    let pid = processes[i].pid;
    let j = position_of(processes, pid);
    assert(processes[j].pid == pid);
    if j < i {
        assert(processes[j].pid < processes[i].pid);
    } else if i < j {
        assert(processes[i].pid < processes[j].pid);
    }
}

/// Round robin picks at most one candidate.
pub proof fn lemma_successor_unique(candidates: Set<Pid>, after: Pid, a: Pid, b: Pid)
    requires
        is_round_robin_successor(candidates, after, a),
        is_round_robin_successor(candidates, after, b),
    ensures
        a == b,
{
}

/// `order` lists the candidates, each once, in ascending order.
pub open spec fn lists(order: Seq<Pid>, candidates: Set<Pid>) -> bool {
    &&& forall|i: int, j: int| 0 <= i < j < order.len() ==> order[i] < order[j]
    &&& forall|i: int| 0 <= i < order.len() ==> candidates.contains(#[trigger] order[i])
    &&& forall|pid: Pid|
        candidates.contains(pid) ==> exists|i: int| 0 <= i < order.len() && #[trigger] order[i]
            == pid
}

/// The place behind `i` in a round of `n` places.
pub open spec fn next_place(i: int, n: int) -> int {
    if i + 1 < n {
        i + 1
    } else {
        0
    }
}

/// The place `k` steps behind `i` in a round of `n` places.
pub open spec fn place_after(i: int, k: int, n: int) -> int {
    if i + k < n {
        i + k
    } else {
        i + k - n
    }
}

/// Behind a candidate, round robin picks the candidate that follows it in
/// ascending order, and behind the last one the first.
pub proof fn lemma_successor_follows(order: Seq<Pid>, candidates: Set<Pid>, i: int)
    requires
        lists(order, candidates),
        0 <= i < order.len(),
    ensures
        is_round_robin_successor(candidates, order[i], order[next_place(i, order.len() as int)]),
{
    let n = order.len() as int;
    let after = order[i];
    let next = order[next_place(i, n)];
    if exists|q: Pid| candidates.contains(q) && q > after {
        let q = choose|q: Pid| candidates.contains(q) && q > after;
        let j = choose|j: int| 0 <= j < order.len() && #[trigger] order[j] == q;
        if j <= i {
            if j < i {
                assert(order[j] < order[i]);
            }
            assert(false);
        }
        assert(i + 1 < n);
        assert(order[i] < order[i + 1]);
        assert forall|p: Pid| candidates.contains(p) && p > after implies next <= p by {
            let k = choose|k: int| 0 <= k < order.len() && #[trigger] order[k] == p;
            if k <= i {
                if k < i {
                    assert(order[k] < order[i]);
                }
                assert(false);
            }
            if k > i + 1 {
                assert(order[i + 1] < order[k]);
            }
        }
    } else {
        if i + 1 < n {
            assert(order[i] < order[i + 1]);
            assert(candidates.contains(order[i + 1]));
            assert(false);
        }
        assert forall|p: Pid| candidates.contains(p) implies next <= p by {
            let k = choose|k: int| 0 <= k < order.len() && #[trigger] order[k] == p;
            if k > 0 {
                assert(order[0] < order[k]);
            }
        }
    }
}

/// Where each pick is the round-robin successor of the pick before it, the
/// `k`-th pick is the candidate `k` places behind the first pick.
pub proof fn lemma_pick_place(
    order: Seq<Pid>,
    candidates: Set<Pid>,
    picks: Seq<Pid>,
    first: int,
    k: int,
)
    requires
        lists(order, candidates),
        picks.len() == order.len(),
        0 <= first < order.len(),
        picks[0] == order[first],
        0 <= k < picks.len(),
        forall|j: int|
            1 <= j < picks.len() ==> is_round_robin_successor(
                candidates,
                picks[j - 1],
                #[trigger] picks[j],
            ),
    ensures
        picks[k] == order[place_after(first, k, order.len() as int)],
    decreases k,
{
    if k > 0 {
        lemma_pick_place(order, candidates, picks, first, k - 1);
        let n = order.len() as int;
        let before = place_after(first, k - 1, n);
        lemma_successor_follows(order, candidates, before);
        assert(is_round_robin_successor(candidates, picks[k - 1], picks[k]));
        lemma_successor_unique(candidates, picks[k - 1], picks[k], order[next_place(before, n)]);
        assert(next_place(before, n) == place_after(first, k, n));
    }
}

/// Round robin is fair: over as many consecutive picks as there are
/// candidates, each pick the successor of the one before it, every candidate
/// is picked, and none is picked twice.
pub proof fn lemma_round_robin_fair(
    order: Seq<Pid>,
    candidates: Set<Pid>,
    start: Pid,
    picks: Seq<Pid>,
)
    requires
        lists(order, candidates),
        order.len() > 0,
        picks.len() == order.len(),
        is_round_robin_successor(candidates, start, picks[0]),
        forall|j: int|
            1 <= j < picks.len() ==> is_round_robin_successor(
                candidates,
                picks[j - 1],
                #[trigger] picks[j],
            ),
    ensures
        forall|i: int| 0 <= i < order.len() ==> picks.contains(#[trigger] order[i]),
        forall|a: int, b: int| 0 <= a < b < picks.len() ==> picks[a] != picks[b],
{
    let n = order.len() as int;
    let first = choose|i: int| 0 <= i < order.len() && #[trigger] order[i] == picks[0];
    assert forall|i: int| 0 <= i < order.len() implies picks.contains(#[trigger] order[i]) by {
        let k = if i >= first {
            i - first
        } else {
            i - first + n
        };
        lemma_pick_place(order, candidates, picks, first, k);
        assert(place_after(first, k, n) == i);
        assert(picks[k] == order[i]);
    }
    assert forall|a: int, b: int| 0 <= a < b < picks.len() implies picks[a] != picks[b] by {
        lemma_pick_place(order, candidates, picks, first, a);
        lemma_pick_place(order, candidates, picks, first, b);
        let pa = place_after(first, a, n);
        let pb = place_after(first, b, n);
        assert(pa != pb);
        if pa < pb {
            assert(order[pa] < order[pb]);
        } else {
            assert(order[pb] < order[pa]);
        }
    }
}

/// A process that waits for the death of another is woken by that death: once
/// the process `target`, which has `waiter` among those to wake, was killed,
/// `waiter` is alive and runnable, with 0 as the result of its system call.
pub proof fn lemma_kill_wakes_waiter(
    before: Seq<Process>,
    after: Seq<Process>,
    waiter: Pid,
    target: Pid,
)
    requires
        sorted_by_pid(before),
        contains_pid(before, target),
        contains_pid(before, waiter),
        waiter != target,
        process_of(before, target).notify_on_die@.contains(waiter),
        is_killed(before, after, target),
    ensures
        contains_pid(after, waiter),
        process_of(after, waiter).state == ProcessState::Runnable,
        process_of(after, waiter).register_state.spec_get(Register::a0) == 0,
        process_of(after, waiter).register_state.registers() == process_of(
            before,
            waiter,
        ).register_state.with(Register::a0, 0),
{
    let k = position_of(before, target);
    let w = position_of(before, waiter);
    let i = if w < k {
        w
    } else {
        w - 1
    };
    assert(survives(before[w], after[i], before[k]));
    assert(after[i].pid == waiter);
    assert forall|a: int, b: int| 0 <= a < b < after.len() implies (#[trigger] after[a]).pid < (
    #[trigger] after[b]).pid by {
        let a2 = if a < k { a } else { a + 1 };
        let b2 = if b < k { b } else { b + 1 };
        assert(survives(before[a2], after[a], before[k]));
        assert(survives(before[b2], after[b], before[k]));
        assert(before[a2].pid < before[b2].pid);
    }
    lemma_position_unique(after, i);
    before[w].register_state.lemma_lengths();
}

/// The process table.
pub struct ProcessTable {
    pub processes: Vec<Process>,
    pub dummy: Process,
    pub next_pid: Pid,
}

impl ProcessTable {
    /// The live processes, in ascending order of pid.
    pub open spec fn view(&self) -> Seq<Process> {
        self.processes@
    }

    /// The pids are unique, ascending, not the reserved one and below the
    /// next pid to hand out; every process is well formed; and every process
    /// to wake at another's death is alive.
    pub open spec fn wf(&self) -> bool {
        &&& self.dummy.pid == NEVER_PID
        &&& self.dummy.wf()
        &&& self.next_pid >= 1
        &&& sorted_by_pid(self@)
        &&& forall|i: int|
            0 <= i < self@.len() ==> (#[trigger] self@[i]).wf() && 1 <= self@[i].pid
                < self.next_pid
        &&& forall|i: int, q: Pid|
            0 <= i < self@.len() && (#[trigger] self@[i]).notify_on_die@.contains(q)
                ==> #[trigger] contains_pid(self@, q)
    }

    /// The table without any process; the first pid it hands out is 1.
    pub fn new() -> (table: Self)
        ensures
            table.wf(),
            table@.len() == 0,
            table.next_pid == 1,
    {
        ProcessTable { processes: Vec::new(), dummy: Process::never(), next_pid: 1 }
    }

    /// The placeholder process.
    pub fn get_dummy_process(&self) -> (dummy: &Process)
        ensures
            *dummy == self.dummy,
    {
        &self.dummy
    }

    /// The pid that the next process gets. Pids are never handed out twice.
    pub fn next_free_pid(&self) -> (pid: Pid)
        ensures
            pid == self.next_pid,
    {
        self.next_pid
    }

    /// Whether the table holds no process.
    pub fn is_empty(&self) -> (empty: bool)
        ensures
            empty == (self@.len() == 0),
    {
        self.processes.len() == 0
    }

    /// The place of the process `pid` in the table.
    pub fn position(&self, pid: Pid) -> (place: Option<usize>)
        requires
            self.wf(),
        ensures
            place is Some <==> contains_pid(self@, pid),
            place matches Some(i) ==> i == position_of(self@, pid) && i < self@.len()
                && self@[i as int].pid
                == pid,
    {
        let mut i: usize = 0;
        while i < self.processes.len()
            invariant
                self.wf(),
                i <= self@.len(),
                forall|k: int| 0 <= k < i ==> (#[trigger] self@[k]).pid != pid,
            decreases self@.len() - i,
        {
            if self.processes[i].pid == pid {
                proof {
                    lemma_position_unique(self@, i as int);
                }
                return Some(i);
            }
            i = i + 1;
        }
        None
    }

    /// The process `pid`, if it is alive.
    pub fn get_process(&self, pid: Pid) -> (process: Option<&Process>)
        requires
            self.wf(),
        ensures
            process is Some <==> contains_pid(self@, pid),
            process matches Some(p) ==> *p == process_of(self@, pid) && p.pid == pid,
    {
        match self.position(pid) {
            Some(i) => Some(&self.processes[i]),
            None => None,
        }
    }

    /// Puts `process`, which carries the next free pid, into the table.
    pub fn add_process(&mut self, process: Process)
        requires
            old(self).wf(),
            process.wf(),
            process.pid == old(self).next_pid,
            old(self).next_pid < u64::MAX,
            forall|q: Pid|
                process.notify_on_die@.contains(q) ==> q == process.pid || contains_pid(
                    old(self)@,
                    q,
                ),
        ensures
            final(self).wf(),
            final(self)@ == old(self)@.push(process),
            final(self).next_pid == old(self).next_pid + 1,
            final(self).dummy == old(self).dummy,
    {
        self.processes.push(process);
        self.next_pid = self.next_pid + 1;
        proof {
            let after = self@;
            let before = old(self)@;
            assert forall|i: int, q: Pid|
                0 <= i < after.len() && (#[trigger] after[i]).notify_on_die@.contains(
                    q,
                ) implies #[trigger] contains_pid(after, q) by {
                if i < before.len() {
                    assert(before[i].notify_on_die@.contains(q));
                    assert(contains_pid(before, q));
                    let k = position_of(before, q);
                    assert(after[k].pid == q);
                } else if q == process.pid {
                    assert(after[before.len() as int].pid == q);
                } else {
                    assert(contains_pid(before, q));
                    let k = position_of(before, q);
                    assert(after[k].pid == q);
                }
            }
        }
    }

    /// The runnable process that round robin runs behind the process `after`:
    /// the one with the smallest pid above `after`, or, where there is none
    /// above, the one with the smallest pid of all. The placeholder is never
    /// picked.
    pub fn next_runnable(&self, after: Pid) -> (next: Option<Pid>)
        requires
            self.wf(),
        ensures
            match next {
                Some(pid) => is_round_robin_successor(runnable_pids(self@), after, pid),
                None => forall|pid: Pid| !is_runnable(self@, pid),
            },
    {
        let mut first: Option<Pid> = None;
        let ghost mut first_index: int = 0;
        let mut i: usize = 0;
        while i < self.processes.len()
            invariant
                self.wf(),
                i <= self@.len(),
                first matches Some(f) ==> 0 <= first_index < i && self@[first_index].pid == f,
                forall|k: int|
                    0 <= k < i && (#[trigger] self@[k]).state == ProcessState::Runnable
                        ==> self@[k].pid <= after,
                first is None ==> forall|k: int|
                    0 <= k < i ==> (#[trigger] self@[k]).state != ProcessState::Runnable,
                first matches Some(f) ==> is_runnable(self@, f) && forall|k: int|
                    0 <= k < i && (#[trigger] self@[k]).state == ProcessState::Runnable ==> f
                        <= self@[k].pid,
            decreases self@.len() - i,
        {
            let process = &self.processes[i];
            if process.state == ProcessState::Runnable {
                if process.pid > after {
                    let pid = process.pid;
                    proof {
                        let candidates = runnable_pids(self@);
                        assert(is_runnable(self@, pid));
                        assert(candidates.contains(pid));
                        assert forall|q: Pid| candidates.contains(q) && q > after implies pid
                            <= q by {
                            let k = choose|k: int|
                                0 <= k < self@.len() && (#[trigger] self@[k]).pid == q
                                    && self@[k].state == ProcessState::Runnable;
                            if k < i {
                                assert(self@[k].pid <= after);
                            } else if k > i {
                                assert(self@[i as int].pid < self@[k].pid);
                            }
                        }
                    }
                    return Some(pid);
                }
                if first.is_none() {
                    first = Some(process.pid);
                    proof {
                        first_index = i as int;
                    }
                    assert(is_runnable(self@, process.pid));
                    assert forall|k: int|
                        0 <= k < i + 1 && (#[trigger] self@[k]).state
                            == ProcessState::Runnable implies process.pid <= self@[k].pid by {
                        if k < i {
                            assert(self@[k].state != ProcessState::Runnable);
                        }
                    }
                }
            }
            i = i + 1;
        }
        proof {
            let candidates = runnable_pids(self@);
            assert forall|q: Pid| candidates.contains(q) implies q <= after by {
                let k = choose|k: int|
                    0 <= k < self@.len() && (#[trigger] self@[k]).pid == q && self@[k].state
                        == ProcessState::Runnable;
                assert(self@[k].pid <= after);
            }
            match first {
                Some(f) => {
                    assert(candidates.contains(f));
                    assert forall|q: Pid| candidates.contains(q) implies f <= q by {
                        let k = choose|k: int|
                            0 <= k < self@.len() && (#[trigger] self@[k]).pid == q
                                && self@[k].state == ProcessState::Runnable;
                        assert(f <= self@[k].pid);
                    }
                },
                None => {
                    assert forall|pid: Pid| !is_runnable(self@, pid) by {
                        if is_runnable(self@, pid) {
                            let k = choose|k: int|
                                0 <= k < self@.len() && (#[trigger] self@[k]).pid == pid
                                    && self@[k].state == ProcessState::Runnable;
                            assert(self@[k].state != ProcessState::Runnable);
                        }
                    }
                },
            }
        }
        first
    }

    /// Kills the process `pid`: takes it out of the table, makes every
    /// process that waits for its death runnable with 0 as the result of its
    /// system call, takes `pid` out of every set of processes to wake, and
    /// gives the physical pages of the process back to `allocator`. Returns
    /// the dead process, as a zombie; `None`, with nothing changed, where no
    /// such process is alive.
    pub fn kill(&mut self, pid: Pid, allocator: &mut PageAllocator) -> (zombie: Option<Process>)
        requires
            old(self).wf(),
            old(allocator).wf(),
        ensures
            final(self).wf(),
            final(allocator).wf(),
            final(allocator).base() == old(allocator).base(),
            final(allocator)@.len() == old(allocator)@.len(),
            final(self).next_pid == old(self).next_pid,
            final(self).dummy == old(self).dummy,
            is_killed(old(self)@, final(self)@, pid),
            zombie is Some <==> contains_pid(old(self)@, pid),
            zombie is None ==> final(allocator)@ == old(allocator)@ && *final(self) == *old(self),
            zombie matches Some(dead) ==> {
                &&& dead == (Process {
                    state: ProcessState::Zombie,
                    ..process_of(old(self)@, pid)
                })
                &&& final(allocator)@ == after_release(
                    old(allocator)@,
                    old(allocator).base(),
                    dead.allocated_pages@,
                )
            },
    {
        let k = match self.position(pid) {
            Some(k) => k,
            None => {
                return None;
            },
        };
        let mut dead = self.processes.remove(k);
        let ghost before = old(self)@;
        let ghost removed = self@;
        assert(dead == before[k as int]);
        assert forall|i: int| 0 <= i < removed.len() implies #[trigger] removed[i] == before[if i
            < k {
            i
        } else {
            i + 1
        }] by {}
        let mut i: usize = 0;
        while i < self.processes.len()
            invariant
                i <= self@.len(),
                self@.len() == removed.len(),
                removed.len() == before.len() - 1,
                0 <= k < before.len(),
                dead == before[k as int],
                dead.pid == pid,
                self.next_pid == old(self).next_pid,
                self.dummy == old(self).dummy,
                old(self).wf(),
                before == old(self)@,
                forall|j: int|
                    0 <= j < removed.len() ==> #[trigger] removed[j] == before[if j < k {
                        j
                    } else {
                        j + 1
                    }],
                forall|j: int| i <= j < self@.len() ==> #[trigger] self@[j] == removed[j],
                forall|j: int|
                    0 <= j < i ==> survives(removed[j], #[trigger] self@[j], dead) && self@[j].wf(),
            decreases self@.len() - i,
        {
            let ghost current = self@;
            let ghost untouched = removed[i as int];
            assert(untouched == before[if i < k {
                i as int
            } else {
                i + 1
            }]);
            assert(untouched.wf());
            let process = &mut self.processes[i];
            if dead.notifies(process.pid) {
                process.wake_with(0);
            }
            process.remove_notify_on_die(pid);
            assert(survives(untouched, self@[i as int], dead));
            assert forall|j: int| 0 <= j < i implies survives(
                removed[j],
                #[trigger] self@[j],
                dead,
            ) && self@[j].wf() by {
                assert(self@[j] == current[j]);
            }
            assert forall|j: int| i + 1 <= j < self@.len() implies #[trigger] self@[j]
                == removed[j] by {
                assert(self@[j] == current[j]);
            }
            i = i + 1;
        }
        dead.release_pages(allocator);
        dead.state = ProcessState::Zombie;
        proof {
            let after = self@;
            lemma_position_unique(before, k as int);
            assert forall|a: int, b: int| 0 <= a < b < after.len() implies (#[trigger] after[a]).pid
                < (#[trigger] after[b]).pid by {
                assert(survives(removed[a], after[a], dead));
                assert(survives(removed[b], after[b], dead));
                let a2 = if a < k { a } else { a + 1 };
                let b2 = if b < k { b } else { b + 1 };
                assert(removed[a] == before[a2]);
                assert(removed[b] == before[b2]);
                assert(before[a2].pid < before[b2].pid);
            }
            assert forall|j: int| 0 <= j < after.len() implies (#[trigger] after[j]).wf() && 1
                <= after[j].pid < self.next_pid by {
                assert(survives(removed[j], after[j], dead));
                let j2 = if j < k { j } else { j + 1 };
                assert(removed[j] == before[j2]);
                assert(before[j2].wf());
            }
            assert forall|j: int, q: Pid|
                0 <= j < after.len() && (#[trigger] after[j]).notify_on_die@.contains(
                    q,
                ) implies #[trigger] contains_pid(after, q) by {
                assert(survives(removed[j], after[j], dead));
                let j2 = if j < k { j } else { j + 1 };
                assert(removed[j] == before[j2]);
                assert(q != pid);
                assert(before[j2].notify_on_die@.contains(q));
                assert(contains_pid(before, q));
                let c = position_of(before, q);
                assert(c != k);
                let c2 = if c < k { c } else { c - 1 };
                assert(survives(removed[c2], after[c2], dead));
                assert(removed[c2] == before[c]);
                assert(after[c2].pid == q);
            }
            assert forall|j: int| 0 <= j < after.len() implies survives(
                before[if j < k {
                    j
                } else {
                    j + 1
                }],
                #[trigger] after[j],
                before[k as int],
            ) by {
                assert(survives(removed[j], after[j], dead));
            }
        }
        Some(dead)
    }

    /// Delivers `byte` to the process `pid` as the result of the system call
    /// it is blocked in, and makes it runnable. Nothing changes where no such
    /// process is alive or the process is not blocked for input.
    pub fn resume_on_syscall(&mut self, pid: Pid, byte: u8)
        requires
            old(self).wf(),
        ensures
            final(self).wf(),
            final(self).next_pid == old(self).next_pid,
            final(self).dummy == old(self).dummy,
            is_delivered(old(self)@, final(self)@, set![pid], byte),
    {
        let ghost before = self@;
        match self.position(pid) {
            Some(i) => {
                assert(before[i as int].wf());
                let process = &mut self.processes[i];
                process.resume_on_syscall(byte);
                proof {
                    let after = self@;
                    assert forall|j: int| 0 <= j < before.len() implies (#[trigger] after[j]).pid
                        == before[j].pid && after[j].notify_on_die == before[j].notify_on_die
                        && after[j].wf() by {
                        assert(before[j].wf());
                    }
                    assert forall|j: int| 0 <= j < before.len() implies if set![pid].contains(
                        before[j].pid,
                    ) {
                        before[j].resumed_with(#[trigger] after[j], byte)
                    } else {
                        after[j] == before[j]
                    } by {
                        lemma_position_unique(before, j);
                        if j != i {
                            assert(before[j].pid != pid);
                            assert(!set![pid].contains(before[j].pid));
                        }
                    }
                    assert forall|a: int, b: int| 0 <= a < b < after.len() implies (
                    #[trigger] after[a]).pid < (#[trigger] after[b]).pid by {
                        assert(before[a].pid < before[b].pid);
                    }
                    assert forall|j: int, q: Pid|
                        0 <= j < after.len() && (#[trigger] after[j]).notify_on_die@.contains(
                            q,
                        ) implies #[trigger] contains_pid(after, q) by {
                        assert(before[j].notify_on_die@.contains(q));
                        assert(contains_pid(before, q));
                        let c = position_of(before, q);
                        assert(after[c].pid == q);
                    }
                }
            },
            None => {
                proof {
                    assert forall|j: int| 0 <= j < before.len() implies !set![pid].contains(
                        (#[trigger] before[j]).pid,
                    ) by {}
                }
            },
        }
    }

    /// The highest pid among the processes whose name is not `name`.
    pub fn get_highest_pid_without(&self, name: &str) -> (highest: Option<Pid>)
        requires
            self.wf(),
        ensures
            match highest {
                Some(pid) => {
                    &&& contains_pid(self@, pid)
                    &&& process_of(self@, pid).name@ != name@
                    &&& forall|i: int|
                        0 <= i < self@.len() && (#[trigger] self@[i]).name@ != name@
                            ==> self@[i].pid <= pid
                },
                None => forall|i: int| 0 <= i < self@.len() ==> (#[trigger] self@[i]).name@
                    == name@,
            },
    {
        let excluded: String = name.to_owned();
        let mut i: usize = self.processes.len();
        while i > 0
            invariant
                self.wf(),
                i <= self@.len(),
                excluded@ == name@,
                forall|k: int| i <= k < self@.len() ==> (#[trigger] self@[k]).name@ == name@,
            decreases i,
        {
            i = i - 1;
            if !(self.processes[i].name == excluded) {
                proof {
                    lemma_position_unique(self@, i as int);
                    assert forall|j: int|
                        0 <= j < self@.len() && (#[trigger] self@[j]).name@ != name@
                            implies self@[j].pid
                            <= self@[i as int].pid by {
                        if j > i {
                            assert(self@[j].name@ == name@);
                        } else if j < i {
                            assert(self@[j].pid < self@[i as int].pid);
                        }
                    }
                }
                return Some(self.processes[i].pid);
            }
        }
        None
    }
}

} // verus!
