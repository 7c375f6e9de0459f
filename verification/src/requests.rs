//! Requests that wait for a worker.

use std::collections::VecDeque;
use vstd::prelude::*;

verus! {

/// How many requests may wait.
pub const DEFAULT_API_QUEUE_LIMIT: usize = 4096;

/// The requests that wait for a worker, the first one first.
pub struct ApiRequestQueue<T> {
    queue: VecDeque<T>,
}

/// What a worker gets from the queue.
pub enum Popped<T> {
    /// A request to handle.
    Request(T),
    /// Nothing now: wait for a request.
    Wait,
    /// Nothing any more: the queue is shut down.
    Closed,
}

impl<T> View for ApiRequestQueue<T> {
    type V = Seq<T>;

    closed spec fn view(&self) -> Seq<T> {
        self.queue@
    }
}

impl<T> ApiRequestQueue<T> {
    /// The queue keeps to its limit.
    pub closed spec fn wf(self) -> bool {
        self.queue@.len() <= DEFAULT_API_QUEUE_LIMIT
    }

    /// No more requests wait than may.
    pub proof fn law_queue_is_bounded(self)
        requires
            self.wf(),
        ensures
            self@.len() <= 4096,
    {
    }

    /// An empty queue.
    pub fn new() -> (requests: Self)
        ensures
            requests.wf(),
            requests@ == Seq::<T>::empty(),
    {
        ApiRequestQueue { queue: VecDeque::new() }
    }

    /// Adds a request behind the others, or hands it back where as many wait
    /// as may.
    pub fn push(&mut self, request: T) -> (result: Result<(), T>)
        requires
            old(self).wf(),
        ensures
            final(self).wf(),
            result is Ok <==> old(self)@.len() < 4096,
            match result {
                Ok(()) => {
                    &&& old(self)@.len() < DEFAULT_API_QUEUE_LIMIT
                    &&& final(self)@ == old(self)@.push(request)
                },
                Err(back) => {
                    &&& old(self)@.len() == DEFAULT_API_QUEUE_LIMIT
                    &&& final(self)@ == old(self)@
                    &&& back == request
                },
            },
    {
        if self.queue.len() >= DEFAULT_API_QUEUE_LIMIT {
            return Err(request);
        }
        self.queue.push_back(request);
        Ok(())
    }

    /// Takes the first request. A queue that is shut down still gives out what
    /// waits in it.
    pub fn pop(&mut self, shutdown: bool) -> (popped: Popped<T>)
        requires
            old(self).wf(),
        ensures
            final(self).wf(),
            match popped {
                Popped::Request(request) => {
                    &&& old(self)@.len() > 0
                    &&& request == old(self)@[0]
                    &&& final(self)@ == old(self)@.skip(1)
                },
                Popped::Wait => {
                    &&& old(self)@.len() == 0 && !shutdown
                    &&& final(self)@ == old(self)@
                },
                Popped::Closed => {
                    &&& old(self)@.len() == 0 && shutdown
                    &&& final(self)@ == old(self)@
                },
            },
    {
        match self.queue.pop_front() {
            Some(request) => {
                assert(self@ =~= old(self)@.skip(1));
                Popped::Request(request)
            },
            None => if shutdown {
                Popped::Closed
            } else {
                Popped::Wait
            },
        }
    }
}

/// What a matching worker does next.
#[derive(Clone, Copy, Debug, PartialEq, Eq, Structural)]
pub enum NextStep {
    /// Try again at once.
    Retry,
    /// Let other threads run, then try again.
    YieldNow,
    /// Sleep for so many milliseconds, then try again.
    Sleep(u64),
}

/// What a matching worker does after it has tried to form a match.
pub fn next_step(formed: bool, idle_ms: u64) -> (step: NextStep)
    ensures
        step == if formed {
            NextStep::Retry
        } else if idle_ms == 0 {
            NextStep::YieldNow
        } else {
            NextStep::Sleep(idle_ms)
        },
{
    if formed {
        NextStep::Retry
    } else if idle_ms == 0 {
        NextStep::YieldNow
    } else {
        NextStep::Sleep(idle_ms)
    }
}

} // verus!
