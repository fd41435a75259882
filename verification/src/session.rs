//! Sessions: the record of several operations on one device, each with what it
//! did on the wire. The contracts of the flash layer speak of sessions, phase by
//! [`Phase`].

use vstd::prelude::*;

use crate::bootloader::{exchange, performs, Event, Op, Reply};
use crate::error::ErrorView;
use crate::progress::ProgressView;

verus! {

/// One operation on a device: what was asked, what went over the wire, and what
/// came of it.
#[verifier::ext_equal]
pub struct Call {
    pub op: Op,
    pub events: Seq<Event>,
    pub result: Result<Reply, ErrorView>,
}

impl Call {
    /// The events are what the operation does, and the result what it makes of
    /// the replies.
    pub open spec fn valid(self) -> bool {
        exchange(self.op, self.events, self.result)
    }
}

/// What the calls did on the wire, one after the other.
pub open spec fn wire(calls: Seq<Call>) -> Seq<Event>
    decreases calls.len(),
{
    if calls.len() == 0 {
        Seq::empty()
    } else {
        wire(calls.drop_last()) + calls.last().events
    }
}

/// Between the two traces exactly these calls were made.
pub open spec fn session(before: Seq<Event>, after: Seq<Event>, calls: Seq<Call>) -> bool {
    &&& forall|i: int| 0 <= i < calls.len() ==> #[trigger] calls[i].valid()
    &&& after == before + wire(calls)
}

/// A trace that did not grow is the session of no call.
pub(crate) proof fn lemma_no_calls(trace: Seq<Event>)
    ensures
        session(trace, trace, Seq::empty()),
{
    assert(trace + wire(Seq::empty()) =~= trace);
}

/// A session goes on with one more call.
pub(crate) proof fn lemma_next_call(
    before: Seq<Event>,
    middle: Seq<Event>,
    after: Seq<Event>,
    calls: Seq<Call>,
    op: Op,
    result: Result<Reply, ErrorView>,
) -> (call: Call)
    requires
        session(before, middle, calls),
        performs(middle, after, op, result),
    ensures
        call.op == op,
        call.result == result,
        call.events == after.skip(middle.len() as int),
        session(before, after, calls.push(call)),
{
    let call = Call { op, events: after.skip(middle.len() as int), result };
    assert(calls.push(call).drop_last() =~= calls);
    assert(after =~= middle + call.events) by {
        assert forall|i: int| 0 <= i < middle.len() implies after[i] == middle[i] by {
            assert(after.take(middle.len() as int)[i] == after[i]);
        }
    }
    assert(before + wire(calls) + call.events =~= before + wire(calls.push(call)));
    call
}

proof fn lemma_wire_join(a: Seq<Call>, b: Seq<Call>)
    ensures
        wire(a + b) == wire(a) + wire(b),
    decreases b.len(),
{
    if b.len() == 0 {
        assert(a + b =~= a);
        assert(wire(a) + wire(b) =~= wire(a));
    } else {
        lemma_wire_join(a, b.drop_last());
        assert((a + b).drop_last() =~= a + b.drop_last());
        assert(wire(a + b) =~= wire(a) + wire(b));
    }
}

/// Two sessions in a row are one.
pub(crate) proof fn lemma_join(
    before: Seq<Event>,
    middle: Seq<Event>,
    after: Seq<Event>,
    a: Seq<Call>,
    b: Seq<Call>,
)
    requires
        session(before, middle, a),
        session(middle, after, b),
    ensures
        session(before, after, a + b),
{
    lemma_wire_join(a, b);
    assert(before + wire(a) + wire(b) =~= before + wire(a + b));
    assert forall|i: int| 0 <= i < (a + b).len() implies #[trigger] (a + b)[i].valid() by {
        if i < a.len() {
            assert(a[i].valid());
        } else {
            assert(b[i - a.len()].valid());
        }
    }
}

/// The calls carry out the plan in order, up to and with the first that fails,
/// whose error is the result. With no failure the whole plan is carried out.
pub open spec fn carries_out(plan: Seq<Op>, calls: Seq<Call>, r: Result<(), ErrorView>) -> bool {
    &&& calls.len() <= plan.len()
    &&& forall|i: int| 0 <= i < calls.len() ==> (#[trigger] calls[i]).op == plan[i]
    &&& match r {
        Ok(()) => {
            &&& calls.len() == plan.len()
            &&& forall|i: int| 0 <= i < calls.len() ==> (#[trigger] calls[i]).result is Ok
        },
        Err(e) => {
            &&& calls.len() > 0
            &&& forall|i: int| 0 <= i < calls.len() - 1 ==> (#[trigger] calls[i]).result is Ok
            &&& calls.last().result == Err::<Reply, _>(e)
        },
    }
}

/// A part of the work: the operations that were made, what came of them, and the
/// progress that was told meanwhile.
#[verifier::ext_equal]
pub struct Phase<R> {
    pub calls: Seq<Call>,
    pub result: Result<R, ErrorView>,
    pub told: Seq<ProgressView>,
}

/// Between the two traces, and between the two records of progress, exactly this
/// happened.
pub open spec fn happened<R>(
    before: Seq<Event>,
    after: Seq<Event>,
    told_before: Seq<ProgressView>,
    told_after: Seq<ProgressView>,
    phase: Phase<R>,
) -> bool {
    &&& session(before, after, phase.calls)
    &&& told_after == told_before + phase.told
}

/// The phase of which nothing happens.
pub open spec fn skipped() -> Phase<()> {
    Phase { calls: Seq::empty(), result: Ok(()), told: Seq::empty() }
}

/// Two phases, of which the second is gone into only if the first succeeded.
pub open spec fn in_turn<A, B>(a: Phase<A>, b: Phase<B>) -> Phase<B> {
    match a.result {
        Err(e) => Phase { calls: a.calls, result: Err(e), told: a.told },
        Ok(_) => Phase { calls: a.calls + b.calls, result: b.result, told: a.told + b.told },
    }
}

/// The phase carries out the plan, and tells the first of `steps` at the start
/// and the next one after each operation that succeeded.
pub open spec fn works_through(
    plan: Seq<Op>,
    steps: Seq<ProgressView>,
    phase: Phase<()>,
) -> bool {
    &&& carries_out(plan, phase.calls, phase.result)
    &&& phase.told == steps.take(
        if phase.result is Ok {
            phase.calls.len() as int + 1
        } else {
            phase.calls.len() as int
        },
    )
}

/// A phase that failed is all that happens.
pub(crate) proof fn lemma_failed<A, B>(
    before: Seq<Event>,
    after: Seq<Event>,
    told_before: Seq<ProgressView>,
    told_after: Seq<ProgressView>,
    a: Phase<A>,
    b: Phase<B>,
)
    requires
        happened(before, after, told_before, told_after, a),
        a.result is Err,
    ensures
        happened(before, after, told_before, told_after, in_turn(a, b)),
{
}

/// A phase that succeeded, and the next.
pub(crate) proof fn lemma_in_turn<A, B>(
    before: Seq<Event>,
    middle: Seq<Event>,
    after: Seq<Event>,
    told_before: Seq<ProgressView>,
    told_middle: Seq<ProgressView>,
    told_after: Seq<ProgressView>,
    a: Phase<A>,
    b: Phase<B>,
)
    requires
        happened(before, middle, told_before, told_middle, a),
        happened(middle, after, told_middle, told_after, b),
        a.result is Ok,
    ensures
        happened(before, after, told_before, told_after, in_turn(a, b)),
{
    lemma_join(before, middle, after, a.calls, b.calls);
    assert(told_before + a.told + b.told =~= told_before + (a.told + b.told));
}

/// A session is made of its calls and of nothing else: each did on the wire what its
/// operation does, and the trace grew by what they did, in order.
pub proof fn law_session(before: Seq<Event>, after: Seq<Event>, calls: Seq<Call>, i: int)
    requires
        session(before, after, calls),
        0 <= i < calls.len(),
    ensures
        exchange(calls[i].op, calls[i].events, calls[i].result),
        after == before + wire(calls),
{
    assert(calls[i].valid());
}

/// No call leaves the wire as it is, and one more adds what it did.
pub proof fn law_wire(calls: Seq<Call>, call: Call)
    ensures
        wire(Seq::<Call>::empty()) == Seq::<Event>::empty(),
        wire(calls.push(call)) == wire(calls) + call.events,
{
    assert(calls.push(call).drop_last() =~= calls);
}

/// What happened in a phase is all that the trace and the record of progress grew by.
pub proof fn law_happened<R>(
    before: Seq<Event>,
    after: Seq<Event>,
    told_before: Seq<ProgressView>,
    told_after: Seq<ProgressView>,
    phase: Phase<R>,
)
    requires
        happened(before, after, told_before, told_after, phase),
    ensures
        after == before + wire(phase.calls),
        told_after == told_before + phase.told,
        forall|i: int| 0 <= i < phase.calls.len() ==> #[trigger] phase.calls[i].valid(),
{
}

/// After a phase that failed nothing more happens; after one that succeeded, all of the
/// next.
pub proof fn law_in_turn<A, B>(a: Phase<A>, b: Phase<B>)
    ensures
        a.result matches Err(e) ==> in_turn(a, b) == (Phase::<B> {
            calls: a.calls,
            result: Err(e),
            told: a.told,
        }),
        a.result is Ok ==> in_turn(a, b) == (Phase {
            calls: a.calls + b.calls,
            result: b.result,
            told: a.told + b.told,
        }),
        skipped().calls.len() == 0,
        skipped().told.len() == 0,
        skipped().result is Ok,
{
}

} // verus!
