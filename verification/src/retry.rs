//! Retrying an RCON command: how many tries, and how long to wait between
//! them. The caller runs the command and sleeps; this decides.
use vstd::prelude::*;

verus! {

/// The wait after the first failed try, in milliseconds.
pub const INITIAL_DELAY_MS: u64 = 200;

/// The longest wait between two tries, in milliseconds.
pub const MAX_DELAY_MS: u64 = 5000;

/// The wait after failed try number `attempt` (from 1): 200 ms, doubled after
/// each further failure, at most 5 s.
pub open spec fn backoff(attempt: nat) -> nat
    decreases attempt,
{
    if attempt <= 1 {
        INITIAL_DELAY_MS as nat
    } else {
        let doubled = 2 * backoff((attempt - 1) as nat);
        if doubled < MAX_DELAY_MS {
            doubled
        } else {
            MAX_DELAY_MS as nat
        }
    }
}

/// The state of a command that is tried up to `attempts` times.
pub struct Retry {
    attempts: usize,
    attempt: usize,
    delay_ms: u64,
}

/// What to do after a try.
#[derive(Debug)]
pub enum RetryStep<T, E> {
    /// Stop, and hand back this result.
    Return(Result<T, E>),
    /// Wait this many milliseconds, then try again.
    RetryAfter(u64),
}

impl Retry {
    /// How many tries there are in all.
    pub closed spec fn total(&self) -> nat {
        self.attempts as nat
    }

    /// The try that is under way, from 1.
    pub closed spec fn current(&self) -> nat {
        self.attempt as nat
    }

    /// How long to wait if the current try fails, in milliseconds.
    pub closed spec fn wait(&self) -> nat {
        self.delay_ms as nat
    }

    #[verifier::type_invariant]
    spec fn well_formed(&self) -> bool {
        &&& 1 <= self.attempt <= self.attempts
        &&& self.delay_ms == backoff(self.attempt as nat)
    }

    /// The first of `attempts` tries; there must be at least one.
    pub fn new(attempts: usize) -> (r: Retry)
        requires
            attempts >= 1,
        ensures
            r.total() == attempts,
            r.current() == 1,
            r.wait() == INITIAL_DELAY_MS,
    {
        Retry { attempts, attempt: 1, delay_ms: INITIAL_DELAY_MS }
    }

    /// How many tries there are in all.
    pub fn attempts(&self) -> (r: usize)
        ensures
            r == self.total(),
            1 <= self.current() <= r,
    {
        proof {
            use_type_invariant(self);
        }
        self.attempts
    }

    /// The try that is under way, from 1.
    pub fn attempt(&self) -> (r: usize)
        ensures
            r == self.current(),
            1 <= r <= self.total(),
    {
        proof {
            use_type_invariant(self);
        }
        self.attempt
    }

    /// How long to wait if the current try fails, in milliseconds.
    pub fn delay_ms(&self) -> (r: u64)
        ensures
            r == self.wait(),
            r == backoff(self.current()),
    {
        proof {
            use_type_invariant(self);
        }
        self.delay_ms
    }

    /// Decides what follows a try with this outcome: a success is returned;
    /// a failure is retried after the current delay while tries are left
    /// (the delay then doubles, up to 5 s), and returned after the last try.
    pub fn step<T, E>(&mut self, outcome: Result<T, E>) -> (r: RetryStep<T, E>)
        ensures
            1 <= old(self).current() <= old(self).total(),
            old(self).wait() == backoff(old(self).current()),
            final(self).total() == old(self).total(),
            1 <= final(self).current() <= final(self).total(),
            final(self).wait() == backoff(final(self).current()),
            match outcome {
                Ok(v) => r == RetryStep::<T, E>::Return(Ok(v)) && final(self).current() == old(
                    self,
                ).current(),
                Err(e) => if old(self).current() < old(self).total() {
                    &&& r == RetryStep::<T, E>::RetryAfter(old(self).wait() as u64)
                    &&& final(self).current() == old(self).current() + 1
                } else {
                    r == RetryStep::<T, E>::Return(Err(e)) && final(self).current() == old(
                        self,
                    ).current()
                },
            },
    {
        proof {
            use_type_invariant(&*self);
        }
        match outcome {
            Ok(v) => RetryStep::Return(Ok(v)),
            Err(e) => {
                if self.attempt < self.attempts {
                    let wait = self.delay_ms;
                    let next_delay = if wait < MAX_DELAY_MS / 2 {
                        wait * 2
                    } else {
                        MAX_DELAY_MS
                    };
                    *self = Retry {
                        attempts: self.attempts,
                        attempt: self.attempt + 1,
                        delay_ms: next_delay,
                    };
                    RetryStep::RetryAfter(wait)
                } else {
                    RetryStep::Return(Err(e))
                }
            },
        }
    }
}

/// The wait never exceeds 5 s and never shrinks from one failure to the next.
pub proof fn backoff_bounded_and_growing(attempt: nat)
    ensures
        INITIAL_DELAY_MS <= backoff(attempt) <= MAX_DELAY_MS,
        backoff(attempt) <= backoff(attempt + 1),
    decreases attempt,
{
    if attempt > 1 {
        backoff_bounded_and_growing((attempt - 1) as nat);
    }
}

} // verus!
