use std::sync::Arc;

use vstd::prelude::*;

use crate::route::{
    inside_stop, lemma_short_circuit, posts, pres, schedule, steps_left, Cursor, Stage, Step,
};

verus! {

/// What a middleware's pre-logic decides for a request.
pub enum Flow<Req, Resp> {
    /// Pass this request (perhaps changed) on to the rest of the chain.
    Forward(Req),
    /// Answer at once; the rest of the chain and the base client do not run.
    Respond(Resp),
}

/// A unit of behaviour run around every request of a wrapped client.
///
/// An implementation verified with this library names what its two hooks
/// may give by overriding `pre_gives` and `post_gives`; the chain's
/// contracts speak of those. The defaults claim nothing.
pub trait Middleware<Req, Resp> {
    /// The pre-logic may give `flow` for the request `req`.
    open spec fn pre_gives(&self, req: Req, flow: Flow<Req, Resp>) -> bool {
        true
    }

    /// The post-logic may turn the response `resp` into `out`.
    open spec fn post_gives(&self, resp: Resp, out: Resp) -> bool {
        true
    }

    /// Pre-logic: sees the request on its way in.
    fn handle_request(&self, req: Req) -> (flow: Flow<Req, Resp>)
        ensures
            self.pre_gives(req, flow),
    ;

    /// Post-logic: sees the response on its way out, and may replace it.
    fn handle_response(&self, resp: Resp) -> (out: Resp)
        ensures
            self.post_gives(resp, out),
    ;
}

/// The base client that a chain ends in. As with `Middleware`, a verified
/// implementation names its answers by overriding `answers`.
pub trait Transport<Req, Resp> {
    /// The client may answer `req` with `resp`.
    open spec fn answers(&self, req: Req, resp: Resp) -> bool {
        true
    }

    /// Sends one request and returns the client's response or error.
    fn send(&self, req: Req) -> (resp: Resp)
        ensures
            self.answers(req, resp),
    ;
}

/// The value in flight between two pieces of the chain.
pub enum Payload<Req, Resp> {
    /// A request on its way in.
    Request(Req),
    /// A response (or error) on its way out.
    Response(Resp),
}

/// One piece of the chain that ran, with what it took and what it gave.
pub enum Event<Req, Resp> {
    /// The pre-logic of the middleware at this position.
    Pre(usize, Req, Flow<Req, Resp>),
    /// The base client, with the request it was sent and its response.
    Base(Req, Resp),
    /// The post-logic of the middleware at this position.
    Post(usize, Resp, Resp),
    /// The final response handed to the caller.
    Done(Resp),
}

/// The kind and position of a recorded event.
pub open spec fn step_of<Req, Resp>(e: Event<Req, Resp>) -> Step {
    match e {
        Event::Pre(i, _, _) => Step::Pre(i),
        Event::Base(_, _) => Step::Base,
        Event::Post(i, _, _) => Step::Post(i),
        Event::Done(_) => Step::Done,
    }
}

/// The steps of a record of events.
pub open spec fn steps_of<Req, Resp>(events: Seq<Event<Req, Resp>>) -> Seq<Step> {
    events.map_values(|e: Event<Req, Resp>| step_of(e))
}

/// What a recorded piece of the chain took in.
pub open spec fn taken<Req, Resp>(e: Event<Req, Resp>) -> Payload<Req, Resp> {
    match e {
        Event::Pre(_, q, _) => Payload::Request(q),
        Event::Base(q, _) => Payload::Request(q),
        Event::Post(_, p, _) => Payload::Response(p),
        Event::Done(p) => Payload::Response(p),
    }
}

/// What a recorded piece of the chain handed on.
pub open spec fn given<Req, Resp>(e: Event<Req, Resp>) -> Payload<Req, Resp> {
    match e {
        Event::Pre(_, _, Flow::Forward(q)) => Payload::Request(q),
        Event::Pre(_, _, Flow::Respond(p)) => Payload::Response(p),
        Event::Base(_, p) => Payload::Response(p),
        Event::Post(_, _, p) => Payload::Response(p),
        Event::Done(p) => Payload::Response(p),
    }
}

/// Each piece of the record took what the one before it gave, and the first
/// took `start`.
pub open spec fn threaded<Req, Resp>(start: Payload<Req, Resp>, events: Seq<Event<Req, Resp>>) -> bool {
    &&& events.len() > 0 ==> taken(events[0]) == start
    &&& forall|i: int| 0 <= i < events.len() - 1 ==> #[trigger] given(events[i]) == taken(events[i + 1])
}

/// What is in flight after the record: `start` if nothing ran yet.
pub open spec fn in_flight<Req, Resp>(start: Payload<Req, Resp>, events: Seq<Event<Req, Resp>>) -> Payload<Req, Resp> {
    if events.len() == 0 { start } else { given(events.last()) }
}

proof fn lemma_threaded_push<Req, Resp>(
    start: Payload<Req, Resp>,
    events: Seq<Event<Req, Resp>>,
    e: Event<Req, Resp>,
)
    requires
        threaded(start, events),
        taken(e) == in_flight(start, events),
    ensures
        threaded(start, events.push(e)),
        in_flight(start, events.push(e)) == given(e),
        steps_of(events.push(e)) == steps_of(events).push(step_of(e)),
{
    let next = events.push(e);
    assert forall|i: int| 0 <= i < next.len() - 1 implies #[trigger] given(next[i]) == taken(next[i + 1]) by {
        if i < events.len() - 1 {
            assert(next[i] == events[i] && next[i + 1] == events[i + 1]);
        }
    }
    assert(steps_of(next) =~= steps_of(events).push(step_of(e)));
}

/// In the record of a request that the middleware at position `k` answered
/// itself, the base client took no request, and the answer is what travels
/// outward from there.
pub proof fn lemma_answered_without_base<Req, Resp>(req: Req, events: Seq<Event<Req, Resp>>, len: nat, k: nat)
    requires
        len <= usize::MAX,
        k < len,
        threaded(Payload::Request(req), events),
        steps_of(events) == schedule(len, Some(k)),
    ensures
        forall|j: int| 0 <= j < events.len() ==> !(#[trigger] events[j] is Base),
        events[k as int] is Pre,
        given(events[k as int]) is Response,
        given(events[k as int]) == taken(events[k + 1int]),
{
    let forwards = Seq::new(len, |j: int| j != k);
    lemma_short_circuit(len, forwards, k);
    assert forall|j: int| 0 <= j < events.len() implies !(#[trigger] events[j] is Base) by {
        assert(steps_of(events)[j] == step_of(events[j]));
        assert(inside_stop(schedule(len, Some(k))[j], k));
    }
    assert(steps_of(events)[k as int] == step_of(events[k as int]));
    assert(steps_of(events)[k + 1int] == step_of(events[k + 1int]));
    assert(step_of(events[k + 1int]) is Post || step_of(events[k + 1int]) is Done);
}

/// A point at which a chain of `len` middleware may stop short.
pub open spec fn stop_ok(len: nat, stop: Option<nat>) -> bool {
    match stop {
        None => true,
        Some(k) => k < len,
    }
}

/// The steps already run on the way in, before the turn at `stop`.
pub open spec fn inward(len: nat, stop: Option<nat>) -> Seq<Step> {
    match stop {
        None => pres(len) + seq![Step::Base],
        Some(k) => pres(k + 1),
    }
}

/// The position at which the response turns outward.
pub open spec fn turn(len: nat, stop: Option<nat>) -> nat {
    match stop {
        None => len,
        Some(k) => k,
    }
}

/// Post-logic steps from position `top - 1` down to position `i`.
pub open spec fn posts_down_to(top: nat, i: nat) -> Seq<Step> {
    Seq::new((top - i) as nat, |j: int| Step::Post((top - 1 - j) as usize))
}

/// Collects the middleware of a chain, in order, around a base client.
pub struct RpcClientBuilder<C, M> {
    client: C,
    middleware_stack: Vec<Arc<M>>,
}

impl<C, M> RpcClientBuilder<C, M> {
    /// The base client.
    pub closed spec fn base(&self) -> C {
        self.client
    }

    /// The middleware attached so far, first attached first.
    pub closed spec fn chain(&self) -> Seq<Arc<M>> {
        self.middleware_stack@
    }

    /// A builder around `client` with no middleware.
    pub fn new(client: C) -> (r: Self)
        ensures
            r.base() == client,
            r.chain() == Seq::<Arc<M>>::empty(),
    {
        RpcClientBuilder { client, middleware_stack: Vec::new() }
    }

    /// Attaches `middleware` at the inner end of the chain.
    pub fn with(self, middleware: M) -> (r: Self)
        ensures
            r.base() == self.base(),
            r.chain().len() == self.chain().len() + 1,
            r.chain().drop_last() == self.chain(),
            *r.chain().last() == middleware,
    {
        self.with_arc(Arc::new(middleware))
    }

    /// Attaches a shared handle at the inner end of the chain; the caller may
    /// keep clones of it.
    pub fn with_arc(self, middleware: Arc<M>) -> (r: Self)
        ensures
            r.base() == self.base(),
            r.chain() == self.chain().push(middleware),
    {
        let mut stack = self.middleware_stack;
        stack.push(middleware);
        RpcClientBuilder { client: self.client, middleware_stack: stack }
    }

    /// The wrapped client, running every attached middleware in order.
    pub fn build(self) -> (r: RpcClientWithMiddleware<C, M>)
        ensures
            r.base() == self.base(),
            r.chain() == self.chain(),
    {
        RpcClientWithMiddleware { inner: self.client, middleware_stack: self.middleware_stack }
    }
}

/// A base client with a fixed chain of middleware run around every request.
#[derive(Clone)]
pub struct RpcClientWithMiddleware<C, M> {
    inner: C,
    middleware_stack: Vec<Arc<M>>,
}

impl<C, M> RpcClientWithMiddleware<C, M> {
    /// The base client.
    pub closed spec fn base(&self) -> C {
        self.inner
    }

    /// The middleware, first attached first (outermost).
    pub closed spec fn chain(&self) -> Seq<Arc<M>> {
        self.middleware_stack@
    }

    /// The event is what the piece of the chain it names may do.
    pub open spec fn allows<Req, Resp>(&self, e: Event<Req, Resp>) -> bool
        where
            C: Transport<Req, Resp>,
            M: Middleware<Req, Resp>,
    {
        match e {
            Event::Pre(i, q, f) => i < self.chain().len() && self.chain()[i as int].pre_gives(q, f),
            Event::Base(q, p) => self.base().answers(q, p),
            Event::Post(i, p, p2) => i < self.chain().len() && self.chain()[i as int].post_gives(p, p2),
            Event::Done(_) => true,
        }
    }

    /// Sends `req` through the chain and returns the final response, with a
    /// record of every piece that ran.
    pub fn call_traced<Req, Resp>(&self, req: Req) -> (r: (Resp, Ghost<Seq<Event<Req, Resp>>>))
        where
            C: Transport<Req, Resp>,
            M: Middleware<Req, Resp>,
        ensures
            exists|stop: Option<nat>|
                stop_ok(self.chain().len(), stop)
                && steps_of(r.1@) == #[trigger] schedule(self.chain().len(), stop),
            threaded(Payload::Request(req), r.1@),
            forall|j: int| 0 <= j < r.1@.len() ==> self.allows(#[trigger] r.1@[j]),
            r.1@.last() == Event::<Req, Resp>::Done(r.0),
            self.chain().len() == 0 ==> r.1@ == seq![
                Event::<Req, Resp>::Base(req, r.0),
                Event::<Req, Resp>::Done(r.0),
            ],
    {
        let n = self.middleware_stack.len();
        let mut cursor = Cursor::start(n);
        let mut carry: Payload<Req, Resp> = Payload::Request(req);
        let ghost start = Payload::<Req, Resp>::Request(req);
        let ghost mut events: Seq<Event<Req, Resp>> = Seq::empty();
        let ghost mut stop: Option<nat> = None;
        loop
            invariant
                n == self.chain().len(),
                start == Payload::<Req, Resp>::Request(req),
                cursor.len() == n,
                cursor.wf(),
                stop_ok(n as nat, stop),
                threaded(start, events),
                forall|j: int| 0 <= j < events.len() ==> self.allows(#[trigger] events[j]),
                carry == in_flight(start, events),
                match cursor.stage() {
                    Stage::Inbound(i) => {
                        &&& carry is Request
                        &&& stop == None::<nat>
                        &&& steps_of(events) == pres(i as nat)
                    },
                    Stage::Outbound(i) => {
                        &&& carry is Response
                        &&& i <= turn(n as nat, stop)
                        &&& steps_of(events) == inward(n as nat, stop) + posts_down_to(turn(n as nat, stop), i as nat)
                    },
                },
            decreases steps_left(n as nat, cursor.stage()),
        {
            let s = cursor.step();
            match carry {
                Payload::Request(q) => {
                    match s {
                        Step::Pre(i) => {
                            let flow = self.middleware_stack[i].handle_request(q);
                            proof {
                                lemma_threaded_push(start, events, Event::Pre(i, q, flow));
                                events = events.push(Event::Pre(i, q, flow));
                            }
                            match flow {
                                Flow::Forward(q2) => {
                                    cursor.advance(true);
                                    carry = Payload::Request(q2);
                                },
                                Flow::Respond(p) => {
                                    proof { stop = Some(i as nat); }
                                    cursor.advance(false);
                                    carry = Payload::Response(p);
                                },
                            }
                        },
                        _ => {
                            let p = self.inner.send(q);
                            proof {
                                lemma_threaded_push(start, events, Event::Base(q, p));
                                events = events.push(Event::Base(q, p));
                            }
                            cursor.advance(true);
                            carry = Payload::Response(p);
                        },
                    }
                },
                Payload::Response(p) => {
                    match s {
                        Step::Post(i) => {
                            let p2 = self.middleware_stack[i].handle_response(p);
                            proof {
                                lemma_threaded_push(start, events, Event::Post(i, p, p2));
                                events = events.push(Event::Post(i, p, p2));
                            }
                            cursor.advance(true);
                            carry = Payload::Response(p2);
                        },
                        _ => {
                            proof {
                                lemma_threaded_push(start, events, Event::Done(p));
                                events = events.push(Event::Done(p));
                                let top = turn(n as nat, stop);
                                assert(posts_down_to(top, 0) =~= posts(top));
                                assert(steps_of(events) =~= schedule(n as nat, stop));
                                if n == 0 {
                                    assert(steps_of(events)[0] == Step::Base);
                                    assert(given(events[0]) == taken(events[1]));
                                    assert(events =~= seq![Event::Base(req, p), Event::Done(p)]);
                                }
                            }
                            return (p, Ghost(events));
                        },
                    }
                },
            }
        }
    }

    /// Sends `req` through the chain and returns the final response.
    pub fn call<Req, Resp>(&self, req: Req) -> (r: Resp)
        where
            C: Transport<Req, Resp>,
            M: Middleware<Req, Resp>,
        ensures
            exists|events: Seq<Event<Req, Resp>>, stop: Option<nat>|
                stop_ok(self.chain().len(), stop)
                && steps_of(events) == #[trigger] schedule(self.chain().len(), stop)
                && threaded(Payload::Request(req), events)
                && (forall|j: int| 0 <= j < events.len() ==> self.allows(#[trigger] events[j]))
                && #[trigger] events.last() == Event::<Req, Resp>::Done(r),
            self.chain().len() == 0 ==> self.base().answers(req, r),
    {
        let (r, Ghost(events)) = self.call_traced(req);
        proof {
            if self.chain().len() == 0 {
                assert(self.allows(events[0]));
            }
        }
        r
    }
}

} // verus!
