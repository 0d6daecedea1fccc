//! Calls that share a write transaction.
use vstd::prelude::*;
use crate::freelist::lemma_swap_remove;

verus! {

/// What becomes of a call that was handed in.
#[derive(Clone, Copy, Debug, PartialEq, Eq, Structural)]
pub enum BatchStep {
    /// It gets a transaction of its own.
    Alone,
    /// It waits until the transaction that is due takes it along.
    Wait,
    /// It waits, and a transaction becomes due after the delay.
    Schedule,
    /// All calls that wait are run now.
    Run,
}

/// How many calls wait, and whether a transaction is due.
pub struct BatchState {
    pub waiting: usize,
    pub scheduled: bool,
}

impl Default for BatchState {
    fn default() -> (s: Self)
        ensures
            s.waiting == 0,
            !s.scheduled,
    {
        BatchState { waiting: 0, scheduled: false }
    }
}

impl BatchState {
    /// What becomes of a call, and of those that wait, when it is handed in.
    pub open spec fn handed_in(self, max_batch_size: usize) -> (BatchState, BatchStep) {
        if max_batch_size <= 1 {
            (self, BatchStep::Alone)
        } else if self.waiting + 1 >= max_batch_size {
            (BatchState { waiting: (self.waiting + 1) as usize, scheduled: false }, BatchStep::Run)
        } else {
            (
                BatchState { waiting: (self.waiting + 1) as usize, scheduled: true },
                if self.scheduled {
                    BatchStep::Wait
                } else {
                    BatchStep::Schedule
                },
            )
        }
    }

    /// Hands in a call.
    pub fn batch(&mut self, max_batch_size: usize) -> (step: BatchStep)
        requires
            old(self).waiting < usize::MAX,
        ensures
            (*final(self), step) == old(self).handed_in(max_batch_size),
            if max_batch_size <= 1 {
                step == BatchStep::Alone && *final(self) == *old(self)
            } else {
                &&& final(self).waiting == old(self).waiting + 1
                &&& if final(self).waiting >= max_batch_size {
                    step == BatchStep::Run && !final(self).scheduled
                } else {
                    &&& final(self).scheduled
                    &&& step == (if old(self).scheduled { BatchStep::Wait } else { BatchStep::Schedule })
                }
            },
    {
        if max_batch_size <= 1 {
            return BatchStep::Alone;
        }
        self.waiting = self.waiting + 1;
        if self.waiting >= max_batch_size {
            self.scheduled = false;
            BatchStep::Run
        } else if !self.scheduled {
            self.scheduled = true;
            BatchStep::Schedule
        } else {
            BatchStep::Wait
        }
    }

    /// Takes all calls that wait.
    pub fn drain(&mut self) -> (n: usize)
        ensures
            n == old(self).waiting,
            final(self).waiting == 0,
            !final(self).scheduled,
    {
        let n: usize = self.waiting;
        self.waiting = 0;
        self.scheduled = false;
        n
    }
}

/// How long a call waits at most, in milliseconds.
pub fn batch_delay(max_delay: u64) -> (ms: u64)
    ensures
        ms == (if max_delay >= 1 { max_delay } else { 1 }),
{
    if max_delay >= 1 {
        max_delay
    } else {
        1
    }
}

/// What to do after all of `calls` were run in one transaction.
#[derive(Clone, Copy, Debug, PartialEq, Eq, Structural)]
pub enum RunStep {
    /// This call failed: it is run again, alone, and gets the answer of that; the others are run
    /// again together.
    Alone(usize),
    /// All calls get the answer of the transaction.
    Answer,
}

/// Goes on after the calls were run in one transaction, where the one at `failed` failed, if any.
/// The calls are known by their numbers. Those that are left are run again.
pub fn run_calls(calls: &mut Vec<usize>, failed: Option<usize>) -> (step: RunStep)
    requires
        failed matches Some(i) ==> i < old(calls)@.len(),
    ensures
        match failed {
            Some(i) => {
                &&& step == RunStep::Alone(old(calls)@[i as int])
                &&& final(calls)@ == old(calls)@.update(i as int, old(calls)@.last()).drop_last()
                &&& final(calls)@.to_multiset() == old(calls)@.to_multiset().remove(old(calls)@[i as int])
            },
            None => step == RunStep::Answer && final(calls)@ == old(calls)@,
        },
{
    match failed {
        Some(i) => {
            let ghost c0 = calls@;
            let id: usize = calls.swap_remove(i);
            proof {
                lemma_swap_remove(c0, i as int);
            }
            RunStep::Alone(id)
        },
        None => RunStep::Answer,
    }
}

/// The state after `n` calls were handed in, from when nothing waited, and what became of the last one.
pub open spec fn after_calls(max_batch_size: usize, n: nat) -> (BatchState, BatchStep)
    decreases n,
{
    if n == 0 {
        (BatchState { waiting: 0, scheduled: false }, BatchStep::Alone)
    } else {
        after_calls(max_batch_size, (n - 1) as nat).0.handed_in(max_batch_size)
    }
}

/// Of calls that come one after the other, where a batch has more than one, the first makes
/// a transaction due, those after it wait for it, and the one with which the batch is full runs them all:
/// none is left out. Where a batch has one at most each call has a transaction of its own.
pub proof fn lemma_calls(max_batch_size: usize, n: nat)
    requires
        n > 0,
        max_batch_size > 1 ==> n <= max_batch_size,
    ensures
        ({
            let (state, step) = after_calls(max_batch_size, n);
            &&& max_batch_size <= 1 ==> step == BatchStep::Alone && state.waiting == 0 && !state.scheduled
            &&& max_batch_size > 1 ==> state.waiting == n
            &&& max_batch_size > 1 && n == max_batch_size ==> step == BatchStep::Run && !state.scheduled
            &&& 1 < n < max_batch_size ==> step == BatchStep::Wait && state.scheduled
            &&& n == 1 && max_batch_size > 1 ==> step == BatchStep::Schedule && state.scheduled
        }),
    decreases n,
{
    reveal_with_fuel(after_calls, 2);
    if n > 1 {
        lemma_calls(max_batch_size, (n - 1) as nat);
    }
}

} // verus!
