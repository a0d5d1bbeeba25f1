use vstd::prelude::*;

verus! {

/// The next piece of work in one request's middleware-and-handler run.
pub enum NextCall<H, M> {
    /// Run this middleware step next.
    Middleware(M),
    /// The chain is exhausted without a short-circuit: run the handler.
    Handler(H),
    /// The run is over; no middleware step and not the handler may run.
    Complete,
}

/// The executor for one request's effective middleware chain and handler.
/// The server shell asks `next` what to run, performs the call (middleware
/// and handler calls suspend, so they cannot happen here), and reports the
/// verdict back through `continued`, `short_circuited` or
/// `handler_finished`. The executor decides; it guarantees the chain runs
/// front to back and that a short-circuit ends the run for good.
pub struct ChainExec<H, M> {
    handler: H,
    chain: Vec<M>,
    pos: usize,
    done: bool,
}

impl<H, M> ChainExec<H, M> {
    pub closed spec fn spec_handler(&self) -> H {
        self.handler
    }

    pub closed spec fn spec_chain(&self) -> Seq<M> {
        self.chain@
    }

    pub closed spec fn spec_pos(&self) -> int {
        self.pos as int
    }

    pub closed spec fn spec_done(&self) -> bool {
        self.done
    }

    /// Positions already run never pass the end of the chain.
    pub open spec fn wf(&self) -> bool {
        self.spec_pos() <= self.spec_chain().len()
    }

    /// What `next` answers in a given state.
    pub open spec fn spec_next(&self) -> NextCall<H, M> {
        if self.spec_done() {
            NextCall::Complete
        } else if self.spec_pos() < self.spec_chain().len() {
            NextCall::Middleware(self.spec_chain()[self.spec_pos()])
        } else {
            NextCall::Handler(self.spec_handler())
        }
    }

    /// The two states agree on everything but the fields a transition may
    /// touch: handler and chain never change over a run.
    pub open spec fn same_run(&self, other: &ChainExec<H, M>) -> bool {
        self.spec_handler() == other.spec_handler() && self.spec_chain() == other.spec_chain()
    }

    /// Start a run: the resolved chain in order, then the handler.
    pub fn new(handler: H, chain: Vec<M>) -> (r: ChainExec<H, M>)
        ensures
            r.spec_handler() == handler,
            r.spec_chain() == chain@,
            r.spec_pos() == 0,
            !r.spec_done(),
            r.wf(),
    {
        ChainExec { handler, chain, pos: 0, done: false }
    }

    /// A middleware step returned a continuation triple: move to the next
    /// step, or to the handler when the chain is exhausted.
    pub fn continued(&mut self)
        requires
            old(self).wf(),
            !old(self).spec_done(),
            old(self).spec_pos() < old(self).spec_chain().len(),
        ensures
            final(self).same_run(old(self)),
            final(self).spec_pos() == old(self).spec_pos() + 1,
            !final(self).spec_done(),
            final(self).wf(),
    {
        let n = self.chain.len();
        assert(self.pos < n);
        self.pos += 1;
    }

    /// A middleware step returned a response: the run is over, every later
    /// step and the handler are skipped, and that response is final.
    pub fn short_circuited(&mut self)
        requires
            !old(self).spec_done(),
            old(self).spec_pos() < old(self).spec_chain().len(),
        ensures
            final(self).same_run(old(self)),
            final(self).spec_pos() == old(self).spec_pos(),
            final(self).spec_done(),
            final(self).spec_next() is Complete,
    {
        self.done = true;
    }

    /// The handler returned: the run is over and its response is final.
    pub fn handler_finished(&mut self)
        requires
            !old(self).spec_done(),
            old(self).spec_pos() >= old(self).spec_chain().len(),
        ensures
            final(self).same_run(old(self)),
            final(self).spec_done(),
            final(self).spec_next() is Complete,
    {
        self.done = true;
    }
}

impl<H: Copy, M: Copy> ChainExec<H, M> {
    /// What to run next: the middleware step at the current position, the
    /// handler once the chain is exhausted, nothing once the run is over.
    pub fn next(&self) -> (r: NextCall<H, M>)
        ensures
            r == self.spec_next(),
    {
        if self.done {
            NextCall::Complete
        } else if self.pos < self.chain.len() {
            NextCall::Middleware(self.chain[self.pos])
        } else {
            NextCall::Handler(self.handler)
        }
    }
}

/// Middleware short-circuit law: once a run is marked done — as a
/// middleware short-circuit marks it — the executor offers no further work,
/// no later middleware step and not the handler, in that state and every
/// state reachable from it (no transition applies to a done run).
pub proof fn lemma_short_circuit_prevents_rest<H, M>(c: ChainExec<H, M>)
    requires
        c.spec_done(),
    ensures
        c.spec_next() is Complete,
{
}

/// Middleware order law: a live run offers exactly the step at the current
/// position, and the handler only once the whole chain has continued past
/// its end.
pub proof fn lemma_chain_order<H, M>(c: ChainExec<H, M>)
    requires
        !c.spec_done(),
        c.wf(),
    ensures
        c.spec_pos() < c.spec_chain().len() ==> c.spec_next() == NextCall::Middleware::<H, M>(
            c.spec_chain()[c.spec_pos()],
        ),
        c.spec_pos() == c.spec_chain().len() ==> c.spec_next() == NextCall::Handler::<H, M>(
            c.spec_handler(),
        ),
{
}

} // verus!
