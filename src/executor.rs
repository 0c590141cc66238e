//! The batch executor, as a state machine that the host drives: it names the
//! next call to make, takes that call's outcome, and stops at the first
//! failure or after the last call.
use vstd::prelude::*;
use crate::call::{
    batch_view, batch_wf, BatchResult, BatchResultView, CallDescriptor, CallOutcome,
    DescriptorView, OutcomeView,
};
use crate::codec::{encode_results, encode_results_spec};
use crate::dispatch::{plan_call, plan_spec, HostCall};

verus! {

/// A batch on its way through the host.
pub struct Executor {
    calls: Vec<CallDescriptor>,
    results: Vec<Vec<u8>>,
    aborted: Option<Vec<u8>>,
}

/// The mathematical value of an executor: the batch, the return data of the
/// calls that succeeded so far, in order, and the failure that stopped it.
pub ghost struct ExecutorView {
    pub calls: Seq<DescriptorView>,
    pub results: Seq<Seq<u8>>,
    pub aborted: Option<Seq<u8>>,
}

impl View for Executor {
    type V = ExecutorView;

    closed spec fn view(&self) -> ExecutorView {
        ExecutorView {
            calls: batch_view(self.calls@),
            results: crate::call::bytes_view(self.results@),
            aborted: match self.aborted {
                Some(b) => Some(b@),
                None => None,
            },
        }
    }
}

/// The data that an outcome carries.
pub open spec fn outcome_bytes(o: OutcomeView) -> Seq<u8> {
    match o {
        OutcomeView::Success(b) => b,
        OutcomeView::Failure(b) => b,
    }
}

impl ExecutorView {
    pub open spec fn wf(self) -> bool {
        &&& batch_wf(self.calls)
        &&& self.results.len() <= self.calls.len()
    }

    /// No call is left to make.
    pub open spec fn done(self) -> bool {
        self.aborted is Some || self.results.len() == self.calls.len()
    }

    /// The state after the next call came back with `o`.
    pub open spec fn record(self, o: OutcomeView) -> ExecutorView {
        match o {
            OutcomeView::Success(b) => ExecutorView { results: self.results.push(b), ..self },
            OutcomeView::Failure(b) => ExecutorView { aborted: Some(b), ..self },
        }
    }

    /// What the batch gives back.
    pub open spec fn result(self) -> BatchResultView {
        match self.aborted {
            Some(b) => BatchResultView::Aborted(b),
            None => BatchResultView::AllSucceeded(self.results),
        }
    }
}

/// The state before any call.
pub open spec fn start(calls: Seq<DescriptorView>) -> ExecutorView {
    ExecutorView { calls, results: Seq::empty(), aborted: None }
}

/// The state after the calls came back with `outs`, one after another.
pub open spec fn run(calls: Seq<DescriptorView>, outs: Seq<OutcomeView>) -> ExecutorView
    decreases outs.len(),
{
    if outs.len() == 0 {
        start(calls)
    } else {
        run(calls, outs.drop_last()).record(outs.last())
    }
}

impl Executor {
    /// An executor for `calls`, before any call.
    pub fn new(calls: Vec<CallDescriptor>) -> (r: Executor)
        requires
            batch_wf(batch_view(calls@)),
        ensures
            r@ == start(batch_view(calls@)),
            r@.wf(),
    {
        let r = Executor { calls, results: Vec::new(), aborted: None };
        assert(r@.results =~= Seq::<Seq<u8>>::empty());
        r
    }

    /// Whether no call is left to make.
    pub fn is_done(&self) -> (r: bool)
        ensures
            r == self@.done(),
    {
        self.aborted.is_some() || self.results.len() == self.calls.len()
    }

    /// The host call to make next, in batch order; `None` once the batch is
    /// done, so that no call after a failure is ever made.
    pub fn next_call(&self) -> (r: Option<HostCall>)
        requires
            self@.wf(),
        ensures
            r is None <==> self@.done(),
            r matches Some(h) ==> h@ == plan_spec(self@.calls[self@.results.len() as int]),
    {
        if self.is_done() {
            return None;
        }
        let i = self.results.len();
        assert(self@.calls[i as int] == self.calls@[i as int]@);
        Some(plan_call(&self.calls[i]))
    }

    /// Takes the outcome of the call that `next_call` named: return data is
    /// kept in order, and a failure stops the batch with its data unchanged.
    pub fn record(&mut self, outcome: CallOutcome)
        requires
            old(self)@.wf(),
            !old(self)@.done(),
        ensures
            final(self)@ == old(self)@.record(outcome@),
            final(self)@.wf(),
    {
        match outcome {
            CallOutcome::Success(b) => {
                self.results.push(b);
                assert(self@.results =~= old(self)@.results.push(outcome@->Success_0));
            },
            CallOutcome::Failure(b) => {
                self.aborted = Some(b);
            },
        }
    }

    /// What the batch gave back, once it is done.
    pub fn into_result(self) -> (r: Option<BatchResult>)
        ensures
            r is Some <==> self@.done(),
            r matches Some(b) ==> b@ == self@.result(),
    {
        if !self.is_done() {
            return None;
        }
        match self.aborted {
            Some(b) => Some(BatchResult::Aborted(b)),
            None => Some(BatchResult::AllSucceeded(self.results)),
        }
    }
}

/// The reply of the entry point to a finished batch: `Ok` with the encoded
/// results, or `Err` with the first failure's data unchanged. `None` when the
/// encoded results would not fit in memory.
pub fn reply(r: BatchResult) -> (out: Option<Result<Vec<u8>, Vec<u8>>>)
    ensures
        match r@ {
            BatchResultView::AllSucceeded(s) => {
                &&& out is None <==> encode_results_spec(s).len() > usize::MAX
                &&& out matches Some(o) ==> o matches Ok(e) && e@ == encode_results_spec(s)
            },
            BatchResultView::Aborted(b) => out matches Some(o) && o matches Err(e) && e@ == b,
        },
{
    match r {
        BatchResult::AllSucceeded(results) => match encode_results(&results) {
            Some(e) => Some(Ok(e)),
            None => None,
        },
        BatchResult::Aborted(b) => Some(Err(b)),
    }
}

proof fn lemma_run_successes(calls: Seq<DescriptorView>, outs: Seq<OutcomeView>)
    requires
        forall|i: int| 0 <= i < outs.len() ==> #[trigger] outs[i] is Success,
    ensures
        run(calls, outs) == (ExecutorView {
            calls,
            results: Seq::new(outs.len(), |i: int| outcome_bytes(outs[i])),
            aborted: None,
        }),
    decreases outs.len(),
{
    if outs.len() == 0 {
        assert(Seq::new(0, |i: int| outcome_bytes(outs[i])) =~= Seq::<Seq<u8>>::empty());
    } else {
        let d = outs.drop_last();
        lemma_run_successes(calls, d);
        assert(outs.last() is Success);
        assert(Seq::new(d.len(), |i: int| outcome_bytes(d[i])).push(outcome_bytes(outs.last()))
            =~= Seq::new(outs.len(), |i: int| outcome_bytes(outs[i])));
    }
}

/// Order: when every call of a batch succeeds, each call is made in turn, and
/// result `i` is the return data of call `i`.
pub proof fn lemma_order_preserved(calls: Seq<DescriptorView>, outs: Seq<OutcomeView>)
    requires
        outs.len() == calls.len(),
        forall|i: int| 0 <= i < outs.len() ==> #[trigger] outs[i] is Success,
    ensures
        forall|m: int| 0 <= m < calls.len() ==> !#[trigger] run(calls, outs.take(m)).done(),
        run(calls, outs).done(),
        run(calls, outs).result() == BatchResultView::AllSucceeded(
            Seq::new(calls.len(), |i: int| outcome_bytes(outs[i])),
        ),
{
    assert forall|m: int| 0 <= m < calls.len() implies !#[trigger] run(
        calls,
        outs.take(m),
    ).done() by {
        lemma_run_successes(calls, outs.take(m));
    }
    lemma_run_successes(calls, outs);
}

/// Short circuit: when call `k` is the first to fail, calls `0..=k` are made,
/// the batch is then done so that no later call is made, the results of calls
/// `0..k` are kept, and the batch gives back call `k`'s failure data unchanged.
pub proof fn lemma_short_circuit(calls: Seq<DescriptorView>, outs: Seq<OutcomeView>, k: int)
    requires
        0 <= k < calls.len(),
        outs.len() == k + 1,
        forall|i: int| 0 <= i < k ==> #[trigger] outs[i] is Success,
        outs[k] is Failure,
    ensures
        forall|m: int| 0 <= m <= k ==> !#[trigger] run(calls, outs.take(m)).done(),
        run(calls, outs).done(),
        run(calls, outs).results == Seq::new(k as nat, |i: int| outcome_bytes(outs[i])),
        run(calls, outs).result() == BatchResultView::Aborted(outcome_bytes(outs[k])),
{
    assert forall|m: int| 0 <= m <= k implies !#[trigger] run(calls, outs.take(m)).done() by {
        lemma_run_successes(calls, outs.take(m));
    }
    let d = outs.drop_last();
    assert(d =~= outs.take(k));
    lemma_run_successes(calls, d);
    assert(Seq::new(d.len(), |i: int| outcome_bytes(d[i])) =~= Seq::new(
        k as nat,
        |i: int| outcome_bytes(outs[i]),
    ));
}

} // verus!
