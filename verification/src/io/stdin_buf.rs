//! The buffer between the console and the processes that read from it: the
//! bytes not yet read, and the processes blocked until a byte arrives.

use std::collections::{BTreeSet, VecDeque};
use vstd::prelude::*;
use vstd::std_specs::btree::group_btree_axioms;
use crate::cpu::Cpu;
use crate::processes::process::{Pid, Process, NEVER_PID};
use crate::processes::process_table::{
    contains_pid, is_delivered, lemma_position_unique, position_of,
};
use crate::processes::scheduler::{
    is_decision, scheduled_cpu, scheduled_pid, scheduled_table, ScheduleOutcome, Scheduler,
};

verus! {

broadcast use group_btree_axioms;

/// The hart with the timer armed to fire at once, if it was off.
pub open spec fn with_timer_on(cpu: Cpu) -> Cpu {
    if cpu.timer is None {
        Cpu { timer: Some(0), ..cpu }
    } else {
        cpu
    }
}

/// A byte delivered to some processes and then to one more is delivered to
/// all of them.
pub proof fn lemma_delivered_step(
    start: Seq<Process>,
    middle: Seq<Process>,
    end: Seq<Process>,
    done: Set<Pid>,
    pid: Pid,
    byte: u8,
)
    requires
        is_delivered(start, middle, done, byte),
        is_delivered(middle, end, set![pid], byte),
    ensures
        is_delivered(start, end, done.insert(pid), byte),
{
    assert forall|j: int| 0 <= j < start.len() implies if done.insert(pid).contains(
        start[j].pid,
    ) {
        start[j].resumed_with(#[trigger] end[j], byte)
    } else {
        end[j] == start[j]
    } by {
        let a = start[j];
        let b = middle[j];
        let c = end[j];
        assert(if done.contains(a.pid) {
            a.resumed_with(b, byte)
        } else {
            b == a
        });
        assert(b.pid == a.pid);
        assert(if set![pid].contains(b.pid) {
            b.resumed_with(c, byte)
        } else {
            c == b
        });
    }
}

/// The console input buffer.
pub struct StdinBuffer {
    data: VecDeque<u8>,
    wakeup_queue: BTreeSet<Pid>,
}

impl StdinBuffer {
    /// The bytes that arrived and were not read yet, oldest first.
    pub closed spec fn data(&self) -> Seq<u8> {
        self.data@
    }

    /// The processes blocked until a byte arrives.
    pub closed spec fn waiters(&self) -> Set<Pid> {
        self.wakeup_queue@
    }

    /// The buffer without bytes and without waiters.
    pub fn new() -> (buffer: Self)
        ensures
            buffer.data().len() == 0,
            buffer.waiters() == Set::<Pid>::empty(),
    {
        StdinBuffer { data: VecDeque::new(), wakeup_queue: BTreeSet::new() }
    }

    /// Records that the process `pid` is to be woken by the next byte.
    pub fn register_wakeup(&mut self, pid: Pid)
        ensures
            final(self).data() == old(self).data(),
            final(self).waiters() == old(self).waiters().insert(pid),
    {
        self.wakeup_queue.insert(pid);
    }

    /// Whether no byte waits to be read.
    pub fn is_empty(&self) -> (empty: bool)
        ensures
            empty == (self.data().len() == 0),
    {
        self.data.len() == 0
    }

    /// What `push` does with `byte`: `after`, `scheduler_after` and
    /// `cpu_after` are the buffer, the scheduler and the hart that it leaves.
    pub open spec fn pushed(
        before: StdinBuffer,
        after: StdinBuffer,
        scheduler_before: Scheduler,
        scheduler_after: Scheduler,
        cpu_before: Cpu,
        cpu_after: Cpu,
        byte: u8,
        rescheduled: Option<ScheduleOutcome>,
    ) -> bool {
        if before.waiters().is_empty() {
            &&& after.data() == before.data().push(byte)
            &&& after.waiters() == before.waiters()
            &&& scheduler_after == scheduler_before
            &&& cpu_after == cpu_before
            &&& rescheduled is None
        } else {
            &&& after.data() == before.data()
            &&& after.waiters() == Set::<Pid>::empty()
            &&& exists|woken: Seq<Process>|
                {
                    &&& #[trigger] is_delivered(
                        scheduler_before.table(),
                        woken,
                        before.waiters(),
                        byte,
                    )
                    &&& if scheduler_before.current_pid == NEVER_PID {
                        &&& rescheduled matches Some(outcome)
                        &&& is_decision(woken, NEVER_PID, outcome)
                        &&& scheduler_after.table() == scheduled_table(woken, outcome)
                        &&& scheduler_after.current_pid == scheduled_pid(outcome)
                        &&& cpu_after == with_timer_on(
                            scheduled_cpu(cpu_before, woken, outcome),
                        )
                    } else {
                        &&& rescheduled is None
                        &&& scheduler_after.table() == woken
                        &&& scheduler_after.current_pid == scheduler_before.current_pid
                        &&& cpu_after == with_timer_on(cpu_before)
                    }
                }
        }
    }

    /// Takes in a byte from the console. With processes blocked for input,
    /// the byte goes to each of them, they become runnable, none is blocked
    /// any more, a hart that idles schedules anew, and a timer that is off is
    /// armed to fire at once; the byte is then not kept. With no process
    /// blocked, the byte is put behind the bytes that wait.
    pub fn push(&mut self, byte: u8, scheduler: &mut Scheduler, cpu: &mut Cpu) -> (rescheduled:
        Option<ScheduleOutcome>)
        requires
            old(scheduler).wf(),
        ensures
            final(scheduler).wf(),
            old(scheduler).same_setup(final(scheduler)),
            old(scheduler).scratch_invariant(*old(cpu)) ==> final(scheduler).scratch_invariant(
                *final(cpu),
            ),
            Self::pushed(
                *old(self),
                *final(self),
                *old(scheduler),
                *final(scheduler),
                *old(cpu),
                *final(cpu),
                byte,
                rescheduled,
            ),
    {
        if self.wakeup_queue.is_empty() {
            self.data.push_back(byte);
            return None;
        }
        let ghost start = scheduler.table();
        let ghost mut done: Set<Pid> = Set::empty();
        for pid in it: self.wakeup_queue.iter()
            invariant
                *self == *old(self),
                it.seq().unref().to_set() == self.wakeup_queue@,
                scheduler.wf(),
                old(scheduler).same_setup(scheduler),
                scheduler.current_pid == old(scheduler).current_pid,
                start == old(scheduler).table(),
                *cpu == *old(cpu),
                done == it.seq().unref().subrange(0, it.index() as int).to_set(),
                it.index() == it.seq().len() ==> it.seq().unref().subrange(0, it.index() as int)
                    =~= it.seq().unref(),
                is_delivered(start, scheduler.table(), done, byte),
        {
            let ghost middle = scheduler.table();
            let ghost i = it.index() as int;
            scheduler.resume_on_syscall(*pid, byte);
            proof {
                lemma_delivered_step(start, middle, scheduler.table(), done, *pid, byte);
                let pids = it.seq().unref();
                assert(pids.subrange(0, i + 1) =~= pids.subrange(0, i).push(*pid));
                pids.subrange(0, i).lemma_push_to_set_commute(*pid);
                done = done.insert(*pid);
            }
        }
        let ghost woken = scheduler.table();
        assert(done == old(self).waiters());
        let mut rescheduled: Option<ScheduleOutcome> = None;
        if scheduler.is_current_process_energy_saver() {
            proof {
                assert(!contains_pid(woken, NEVER_PID)) by {
                    assert forall|j: int| 0 <= j < woken.len() implies (#[trigger] woken[j]).pid
                        != NEVER_PID by {}
                }
            }
            rescheduled = Some(scheduler.schedule(cpu));
        } else {
            proof {
                if scheduler.current_pid != NEVER_PID {
                    let c = position_of(start, scheduler.current_pid);
                    lemma_position_unique(start, c);
                    assert(woken[c].pid == start[c].pid);
                    lemma_position_unique(woken, c);
                }
            }
        }
        self.wakeup_queue.clear();
        if !cpu.is_timer_enabled() {
            cpu.set_timer(0);
        }
        rescheduled
    }

    /// Takes the oldest byte that waits to be read.
    pub fn pop(&mut self) -> (byte: Option<u8>)
        ensures
            final(self).waiters() == old(self).waiters(),
            match byte {
                Some(b) => old(self).data().len() > 0 && b == old(self).data()[0]
                    && final(self).data()
                        == old(self).data().subrange(1, old(self).data().len() as int),
                None => old(self).data().len() == 0 && final(self).data() == old(self).data(),
            },
    {
        self.data.pop_front()
    }
}

} // verus!
