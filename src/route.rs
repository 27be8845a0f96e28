use vstd::prelude::*;

verus! {

/// Where one request stands in a chain of middleware.
#[derive(Clone, Copy, PartialEq, Eq, Structural, Debug)]
pub enum Stage {
    /// Travelling inward: the pre-logic of middleware `i` runs next, or the
    /// base client when `i` is the chain's length.
    Inbound(usize),
    /// Travelling outward: middleware `0..i` still have their post-logic to
    /// run, innermost first; at `0` the request is finished.
    Outbound(usize),
}

/// One piece of work that the dispatch machine asks for.
#[derive(Clone, Copy, PartialEq, Eq, Structural, Debug)]
pub enum Step {
    /// Run the pre-logic of the middleware at this position.
    Pre(usize),
    /// Call the base client.
    Base,
    /// Run the post-logic of the middleware at this position.
    Post(usize),
    /// The response is final.
    Done,
}

/// The stage is possible in a chain of `len` middleware.
pub open spec fn stage_wf(len: nat, stage: Stage) -> bool {
    len <= usize::MAX && match stage {
        Stage::Inbound(i) => i <= len,
        Stage::Outbound(i) => i <= len,
    }
}

/// The step that the machine asks for at `stage`.
pub open spec fn step_at(len: nat, stage: Stage) -> Step {
    match stage {
        Stage::Inbound(i) => if i < len { Step::Pre(i) } else { Step::Base },
        Stage::Outbound(i) => if i > 0 { Step::Post((i - 1) as usize) } else { Step::Done },
    }
}

/// The stage after the step at `stage` has run. `forwarded` matters after a
/// pre-logic step only: whether the middleware passed the request on.
pub open spec fn stage_after(len: nat, stage: Stage, forwarded: bool) -> Stage {
    match stage {
        Stage::Inbound(i) => if i < len {
            if forwarded { Stage::Inbound((i + 1) as usize) } else { Stage::Outbound(i) }
        } else {
            Stage::Outbound(i)
        },
        Stage::Outbound(i) => if i > 0 { Stage::Outbound((i - 1) as usize) } else { stage },
    }
}

/// How many steps are left before `Done`.
pub open spec fn steps_left(len: nat, stage: Stage) -> nat {
    match stage {
        Stage::Inbound(i) => ((len - i) + len + 1) as nat,
        Stage::Outbound(i) => i as nat,
    }
}

/// The pre-logic steps of positions `0..k`, in order.
pub open spec fn pres(k: nat) -> Seq<Step> {
    Seq::new(k, |j: int| Step::Pre(j as usize))
}

/// The post-logic steps of positions `k-1` down to `0`.
pub open spec fn posts(k: nat) -> Seq<Step> {
    Seq::new(k, |j: int| Step::Post((k - 1 - j) as usize))
}

/// The steps of one request through `len` middleware. With `stop == None`
/// every middleware forwards and the base client is called; with
/// `stop == Some(k)` the middleware at `k` answers itself.
pub open spec fn schedule(len: nat, stop: Option<nat>) -> Seq<Step> {
    match stop {
        None => pres(len) + seq![Step::Base] + posts(len) + seq![Step::Done],
        Some(k) => pres(k + 1) + posts(k) + seq![Step::Done],
    }
}

/// The steps the machine asks for from `stage` on, when the middleware at
/// position `i` forwards exactly if `forwards[i]`.
pub open spec fn run_from(len: nat, stage: Stage, forwards: Seq<bool>) -> Seq<Step>
    decreases steps_left(len, stage),
{
    if !stage_wf(len, stage) {
        Seq::empty()
    } else {
        match stage {
            Stage::Outbound(i) => if i == 0 {
                seq![Step::Done]
            } else {
                seq![step_at(len, stage)] + run_from(len, Stage::Outbound((i - 1) as usize), forwards)
            },
            Stage::Inbound(i) => {
                let fwd = i < len && i < forwards.len() && forwards[i as int];
                seq![step_at(len, stage)] + run_from(len, stage_after(len, stage, fwd), forwards)
            },
        }
    }
}

/// The dispatch state of one request.
pub struct Cursor {
    len: usize,
    stage: Stage,
}

impl Cursor {
    /// The length of the chain.
    pub closed spec fn len(&self) -> nat {
        self.len as nat
    }

    /// Where the request stands.
    pub closed spec fn stage(&self) -> Stage {
        self.stage
    }

    pub open spec fn wf(&self) -> bool {
        stage_wf(self.len(), self.stage())
    }

    /// A fresh request at the outer edge of a chain of `len` middleware.
    pub fn start(len: usize) -> (r: Cursor)
        ensures
            r.len() == len,
            r.stage() == Stage::Inbound(0),
            r.wf(),
    {
        Cursor { len, stage: Stage::Inbound(0) }
    }

    /// The step to run next.
    pub fn step(&self) -> (s: Step)
        requires
            self.wf(),
        ensures
            s == step_at(self.len(), self.stage()),
    {
        match self.stage {
            Stage::Inbound(i) => if i < self.len { Step::Pre(i) } else { Step::Base },
            Stage::Outbound(i) => if i > 0 { Step::Post(i - 1) } else { Step::Done },
        }
    }

    /// Records that the step asked for has run; `forwarded` tells, after a
    /// pre-logic step, whether the middleware passed the request on.
    pub fn advance(&mut self, forwarded: bool)
        requires
            old(self).wf(),
        ensures
            final(self).len() == old(self).len(),
            final(self).stage() == stage_after(old(self).len(), old(self).stage(), forwarded),
            final(self).wf(),
    {
        self.stage = match self.stage {
            Stage::Inbound(i) => if i < self.len {
                if forwarded { Stage::Inbound(i + 1) } else { Stage::Outbound(i) }
            } else {
                Stage::Outbound(i)
            },
            Stage::Outbound(i) => if i > 0 { Stage::Outbound(i - 1) } else { Stage::Outbound(0) },
        };
    }
}

/// The pre-logic steps of positions `i..k`, in order.
spec fn pres_between(i: nat, k: nat) -> Seq<Step> {
    Seq::new((k - i) as nat, |j: int| Step::Pre((i + j) as usize))
}

proof fn lemma_run_outbound(len: nat, i: nat, forwards: Seq<bool>)
    requires
        len <= usize::MAX,
        i <= len,
    ensures
        run_from(len, Stage::Outbound(i as usize), forwards) == posts(i) + seq![Step::Done],
    decreases i,
{
    if i > 0 {
        lemma_run_outbound(len, (i - 1) as nat, forwards);
        assert(posts(i) =~= seq![Step::Post((i - 1) as usize)] + posts((i - 1) as nat));
    }
    assert(run_from(len, Stage::Outbound(i as usize), forwards) =~= posts(i) + seq![Step::Done]);
}

proof fn lemma_run_all_forward(len: nat, i: nat, forwards: Seq<bool>)
    requires
        len <= usize::MAX,
        i <= len,
        forwards.len() == len,
        forall|j: int| i <= j < len ==> forwards[j],
    ensures
        run_from(len, Stage::Inbound(i as usize), forwards)
            == pres_between(i, len) + seq![Step::Base] + posts(len) + seq![Step::Done],
    decreases len - i,
{
    let here = Stage::Inbound(i as usize);
    if i == len {
        lemma_run_outbound(len, len, forwards);
    } else {
        lemma_run_all_forward(len, i + 1, forwards);
        assert(pres_between(i, len) =~= seq![Step::Pre(i as usize)] + pres_between(i + 1, len));
    }
    assert(run_from(len, here, forwards) =~= pres_between(i, len) + seq![Step::Base] + posts(len)
        + seq![Step::Done]);
}

proof fn lemma_run_stopped(len: nat, i: nat, forwards: Seq<bool>, k: nat)
    requires
        len <= usize::MAX,
        i <= k < len,
        forwards.len() == len,
        !forwards[k as int],
        forall|j: int| i <= j < k ==> forwards[j],
    ensures
        run_from(len, Stage::Inbound(i as usize), forwards) == pres_between(i, k + 1) + posts(k) + seq![
            Step::Done,
        ],
    decreases k - i,
{
    let here = Stage::Inbound(i as usize);
    if i == k {
        lemma_run_outbound(len, k, forwards);
    } else {
        lemma_run_stopped(len, i + 1, forwards, k);
        assert(pres_between(i, k + 1) =~= seq![Step::Pre(i as usize)] + pres_between(i + 1, k + 1));
    }
    assert(run_from(len, here, forwards) =~= pres_between(i, k + 1) + posts(k) + seq![Step::Done]);
}

/// When every middleware forwards, the machine runs the pre-logic of each
/// position in attachment order, then the base client, then the post-logic
/// of each position in reverse order: strict nesting.
pub proof fn lemma_nesting_order(len: nat, forwards: Seq<bool>)
    requires
        len <= usize::MAX,
        forwards.len() == len,
        forall|j: int| 0 <= j < len ==> forwards[j],
    ensures
        run_from(len, Stage::Inbound(0), forwards) == schedule(len, None),
        schedule(len, None).len() == 2 * len + 2,
        forall|j: int| 0 <= j < len ==> #[trigger] schedule(len, None)[j] == Step::Pre(j as usize),
        schedule(len, None)[len as int] == Step::Base,
        forall|j: int| 0 <= j < len ==> #[trigger] schedule(len, None)[len + 1 + j] == Step::Post(
            (len - 1 - j) as usize,
        ),
        schedule(len, None)[2 * len + 1int] == Step::Done,
{
    lemma_run_all_forward(len, 0, forwards);
    assert(pres_between(0, len) =~= pres(len));
}

/// The step stays within a chain cut short at position `k`: no base call,
/// pre-logic at positions up to `k`, post-logic below `k`.
pub open spec fn inside_stop(s: Step, k: nat) -> bool {
    match s {
        Step::Pre(m) => m <= k,
        Step::Base => false,
        Step::Post(m) => m < k,
        Step::Done => true,
    }
}

/// A middleware that answers without forwarding ends the inward journey: the
/// base client is never called, no middleware attached after it runs, and
/// only those attached before it run their post-logic, innermost first.
pub proof fn lemma_short_circuit(len: nat, forwards: Seq<bool>, k: nat)
    requires
        len <= usize::MAX,
        forwards.len() == len,
        k < len,
        !forwards[k as int],
        forall|j: int| 0 <= j < k ==> forwards[j],
    ensures
        run_from(len, Stage::Inbound(0), forwards) == schedule(len, Some(k)),
        !schedule(len, Some(k)).contains(Step::Base),
        forall|j: int|
            0 <= j < schedule(len, Some(k)).len() ==> inside_stop(#[trigger] schedule(len, Some(k))[j], k),
{
    lemma_run_stopped(len, 0, forwards, k);
    assert(pres_between(0, k + 1) =~= pres(k + 1));
    let s = schedule(len, Some(k));
    assert forall|j: int| 0 <= j < s.len() implies inside_stop(#[trigger] s[j], k) by {
        if j < k + 1 {
            assert(s[j] == pres(k + 1)[j]);
        } else if j < 2 * k + 1 {
            assert(s[j] == posts(k)[j - (k + 1)]);
        }
    }
}

/// A middleware instance attached at two positions runs at both: its
/// pre-logic at the outer position first, then at the inner one, and its
/// post-logic in the reverse order.
pub proof fn lemma_attached_twice<M>(chain: Seq<M>, p1: nat, p2: nat)
    requires
        chain.len() <= usize::MAX,
        p1 < p2 < chain.len(),
        chain[p1 as int] == chain[p2 as int],
    ensures
        schedule(chain.len(), None)[p1 as int] == Step::Pre(p1 as usize),
        schedule(chain.len(), None)[p2 as int] == Step::Pre(p2 as usize),
        schedule(chain.len(), None)[2 * chain.len() - p2] == Step::Post(p2 as usize),
        schedule(chain.len(), None)[2 * chain.len() - p1] == Step::Post(p1 as usize),
        p1 < p2 < 2 * chain.len() - p2 < 2 * chain.len() - p1,
{
    let len = chain.len();
    let forwards = Seq::new(len, |j: int| true);
    lemma_nesting_order(len, forwards);
    assert(schedule(len, None)[len + 1 + (len - 1 - p2)] == Step::Post(p2 as usize));
    assert(schedule(len, None)[len + 1 + (len - 1 - p1)] == Step::Post(p1 as usize));
}

} // verus!
