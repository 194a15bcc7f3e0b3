use vstd::prelude::*;

verus! {

/// The queue after an input is offered to a bounded slot of the given
/// capacity: a free slot accepts it at the back; a full queue first
/// drops its oldest entry, so with capacity one the newest request
/// supersedes an unconsumed earlier one.
pub open spec fn offered<I>(queue: Seq<I>, capacity: nat, input: I) -> Seq<I> {
    if queue.len() < capacity {
        queue.push(input)
    } else {
        queue.skip(1).push(input)
    }
}

/// A single-slot job engine: holds at most `capacity` pending inputs
/// (one, in the aggregator's use) and at most one pending completed
/// result. The producer offers inputs with `give_job` and polls with
/// `get_next`; the background loop that the owner drives takes a job
/// with `take_job` and hands its outcome back through `publish`.
/// Neither side ever blocks.
pub struct Request<I, R> {
    running: bool,
    capacity: usize,
    pending: Vec<I>,
    done: Option<R>,
}

impl<I, R> Request<I, R> {
    #[verifier::type_invariant]
    spec fn inv(self) -> bool {
        1 <= self.capacity && self.pending.len() <= self.capacity
    }

    /// Whether the engine has been started.
    pub closed spec fn is_running(self) -> bool {
        self.running
    }

    /// The depth of the bounded input queue.
    pub closed spec fn capacity(self) -> nat {
        self.capacity as nat
    }

    /// The pending inputs, oldest first.
    pub closed spec fn pending(self) -> Seq<I> {
        self.pending@
    }

    /// The completed result no consumer has retrieved yet, if any.
    pub closed spec fn done(self) -> Option<R> {
        self.done
    }

    /// An engine with an input queue of the given depth. No background
    /// activity is implied until `run`.
    pub fn new(capacity: usize) -> (r: Request<I, R>)
        requires
            1 <= capacity,
        ensures
            !r.is_running(),
            r.capacity() == capacity,
            r.pending() =~= Seq::<I>::empty(),
            r.done() is None,
    {
        Request { running: false, capacity, pending: Vec::new(), done: None }
    }

    /// Starts the engine; the owner may now drive the background loop.
    /// An engine is started exactly once.
    pub fn run(&mut self)
        requires
            !old(self).is_running(),
        ensures
            final(self).is_running(),
            final(self).capacity() == old(self).capacity(),
            final(self).pending() == old(self).pending(),
            final(self).done() == old(self).done(),
    {
        proof {
            use_type_invariant(&*self);
        }
        self.running = true;
    }

    /// Offers a new input without blocking: when the queue is full the
    /// oldest unconsumed input is dropped in its favour.
    pub fn give_job(&mut self, input: I)
        ensures
            final(self).pending() =~= offered(old(self).pending(), old(self).capacity(), input),
            final(self).is_running() == old(self).is_running(),
            final(self).capacity() == old(self).capacity(),
            final(self).done() == old(self).done(),
    {
        proof {
            use_type_invariant(&*self);
        }
        let mut queue: Vec<I> = Vec::new();
        std::mem::swap(&mut queue, &mut self.pending);
        if queue.len() == self.capacity {
            queue.remove(0);
            proof {
                assert(queue@ =~= old(self).pending().skip(1));
            }
        }
        queue.push(input);
        std::mem::swap(&mut queue, &mut self.pending);
    }

    /// The background side takes the oldest pending input, if any.
    pub fn take_job(&mut self) -> (r: Option<I>)
        ensures
            final(self).is_running() == old(self).is_running(),
            final(self).capacity() == old(self).capacity(),
            final(self).done() == old(self).done(),
            old(self).pending().len() == 0 ==> r is None && final(self).pending()
                =~= old(self).pending(),
            old(self).pending().len() > 0 ==> r == Some(old(self).pending()[0])
                && final(self).pending() =~= old(self).pending().skip(1),
    {
        proof {
            use_type_invariant(&*self);
        }
        if self.pending.len() == 0 {
            None
        } else {
            let mut queue: Vec<I> = Vec::new();
            std::mem::swap(&mut queue, &mut self.pending);
            let input = queue.remove(0);
            std::mem::swap(&mut queue, &mut self.pending);
            Some(input)
        }
    }

    /// The background side publishes a completed result; an unconsumed
    /// earlier result is superseded, so at most one waits at any time.
    pub fn publish(&mut self, result: R)
        ensures
            final(self).done() == Some(result),
            final(self).is_running() == old(self).is_running(),
            final(self).capacity() == old(self).capacity(),
            final(self).pending() == old(self).pending(),
    {
        proof {
            use_type_invariant(&*self);
        }
        self.done = Some(result);
    }

    /// Non-blocking poll: the completed result if one is waiting, which
    /// the call consumes; `None` when nothing new has finished.
    pub fn get_next(&mut self) -> (r: Option<R>)
        ensures
            r == old(self).done(),
            final(self).done() is None,
            final(self).is_running() == old(self).is_running(),
            final(self).capacity() == old(self).capacity(),
            final(self).pending() == old(self).pending(),
    {
        proof {
            use_type_invariant(&*self);
        }
        let mut taken: Option<R> = None;
        std::mem::swap(&mut taken, &mut self.done);
        taken
    }
}

/// A `give_job` followed by a second one before the first input was
/// consumed leaves a depth-one engine with exactly one pending job,
/// holding the second input: the first is superseded, never run, and
/// the engine keeps working.
pub proof fn lemma_second_offer_supersedes<I>(queue: Seq<I>, first: I, second: I)
    requires
        queue.len() <= 1,
    ensures
        offered(offered(queue, 1, first), 1, second) =~= seq![second],
{
}

/// One completed job hands its result out exactly once: of two polls in
/// a row — each bound by `get_next`'s contract, which returns whatever
/// waits and leaves the slot empty — the first returns the pending
/// result and the second returns nothing.
pub proof fn lemma_result_consumed_once<I, R>(
    s0: Request<I, R>,
    s1: Request<I, R>,
    s2: Request<I, R>,
    r1: Option<R>,
    r2: Option<R>,
)
    requires
        r1 == s0.done(),
        s1.done() is None,
        r2 == s1.done(),
        s2.done() is None,
    ensures
        r1 == s0.done(),
        r2 is None,
{
}

} // verus!
