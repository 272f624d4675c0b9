//! The bookkeeping of intentions: which exist, which are blocked and why, and which one
//! is stepped next.

use std::collections::BTreeMap;

use vstd::prelude::*;

use crate::bindings::Bindings;
use crate::event::{EventSource, TriggeringEvent};
use crate::knowledge::query::EvaluationError;
use crate::knowledge::KnowledgeBase;
use crate::plan::{Action, ExecuteResult, Formula, Execute};
use crate::term::Term;
use crate::resolve::ResolveFailure;
use crate::unification::error::UnificationError;

pub mod frame;
pub mod scheduler;

pub use self::frame::{Frame, FrameStep, Intention, PendingAction};

use self::frame::{dispatched_by, frames_work, intention_action_finished, intention_stepped, intention_unify_finished, raised_by, same_bindings};
pub use self::scheduler::{Fifo, Random, Scheduler};

verus! {

broadcast use {vstd::std_specs::vec::group_vec_axioms, vstd::std_specs::btree::group_btree_axioms};

/// The identity of an intention.
pub type IntentionId = usize;

/// How a step of an intention ended.
#[derive(Debug, Clone, Copy, PartialEq, Eq, Structural)]
pub enum StepOk {
    /// The intention has more to do.
    Pending,
    /// The intention has run to completion.
    Done,
}

/// Why a step of an intention failed.
#[derive(Debug, Clone, Copy, PartialEq, Eq)]
pub enum StepError {
    ResolveFailure(ResolveFailure),
    /// A belief to add or remove still holds a variable.
    ResolveIncomplete,
    /// The two sides of a unification do not unify.
    UnifyFailed,
    /// A side of a unification could not be evaluated.
    UnifyEvalError(EvaluationError),
    /// Bindings that a step produced contradict those of the frame.
    MergeFailed(UnificationError),
}

impl StepOk {
    /// A step that completed the intention.
    pub fn done() -> (r: Result<StepOk, StepError>)
        ensures
            r == Ok::<StepOk, StepError>(StepOk::Done),
    {
        Ok(StepOk::Done)
    }

    /// A step after which the intention has more to do.
    pub fn pending() -> (r: Result<StepOk, StepError>)
        ensures
            r == Ok::<StepOk, StepError>(StepOk::Pending),
    {
        Ok(StepOk::Pending)
    }
}

impl StepError {
    /// The message the error displays.
    pub fn message(&self) -> (s: &'static str)
        ensures
            s@ == match self {
                StepError::ResolveFailure(_) => "frame step error: resolve failure: incorrect kind"@,
                StepError::ResolveIncomplete => "frame step error: resolve incomplete"@,
                StepError::UnifyFailed => "frame step error: unification failed"@,
                StepError::UnifyEvalError(_) => "frame step error: unification could not be evaluated"@,
                StepError::MergeFailed(_) => "frame step error: bindings could not be merged"@,
            },
    {
        match self {
            StepError::ResolveFailure(_) => "frame step error: resolve failure: incorrect kind",
            StepError::ResolveIncomplete => "frame step error: resolve incomplete",
            StepError::UnifyFailed => "frame step error: unification failed",
            StepError::UnifyEvalError(_) => "frame step error: unification could not be evaluated",
            StepError::MergeFailed(_) => "frame step error: bindings could not be merged",
        }
    }
}

impl From<ResolveFailure> for StepError {
    fn from(error: ResolveFailure) -> (r: Self) {
        StepError::ResolveFailure(error)
    }
}

impl vstd::std_specs::convert::FromSpecImpl<ResolveFailure> for StepError {
    open spec fn obeys_from_spec() -> bool {
        true
    }

    open spec fn from_spec(error: ResolveFailure) -> StepError {
        StepError::ResolveFailure(error)
    }
}

/// Why an intention may not be stepped now.
#[derive(Debug, Default, Clone, Copy, PartialEq, Eq)]
pub struct BlockReasons {
    /// The events it raised that have not been handled yet.
    pub pending_events: usize,
    /// Whether it has dispatched an action that has not finished yet.
    pub pending_action: bool,
}

impl BlockReasons {
    pub open spec fn blocked(&self) -> bool {
        self.pending_events > 0 || self.pending_action
    }

    /// Whether any reason is left.
    pub fn is_blocked(&self) -> (r: bool)
        ensures
            r == self.blocked(),
    {
        self.pending_events > 0 || self.pending_action
    }
}

/// The reasons after one more event block of `id`.
pub open spec fn with_event_block(b: Map<IntentionId, BlockReasons>, id: IntentionId) -> Map<IntentionId, BlockReasons> {
    b.insert(
        id,
        if b.contains_key(id) {
            BlockReasons { pending_events: (b[id].pending_events + 1) as usize, ..b[id] }
        } else {
            BlockReasons { pending_events: 1, pending_action: false }
        },
    )
}

/// The reasons after one event block of `id` is lifted; no entry is left without a reason.
pub open spec fn without_event_block(b: Map<IntentionId, BlockReasons>, id: IntentionId) -> Map<IntentionId, BlockReasons> {
    let r = BlockReasons { pending_events: (b[id].pending_events - 1) as usize, ..b[id] };
    if r.blocked() { b.insert(id, r) } else { b.remove(id) }
}

/// The reasons after `id` blocks on an action.
pub open spec fn with_action_block(b: Map<IntentionId, BlockReasons>, id: IntentionId) -> Map<IntentionId, BlockReasons> {
    b.insert(
        id,
        if b.contains_key(id) {
            BlockReasons { pending_action: true, ..b[id] }
        } else {
            BlockReasons { pending_events: 0, pending_action: true }
        },
    )
}

/// The reasons after the action block of `id` is lifted; no entry is left without a reason.
pub open spec fn without_action_block(b: Map<IntentionId, BlockReasons>, id: IntentionId) -> Map<IntentionId, BlockReasons> {
    let r = BlockReasons { pending_action: false, ..b[id] };
    if r.blocked() { b.insert(id, r) } else { b.remove(id) }
}

/// Every recorded entry has a reason.
pub open spec fn reasons_wf(b: Map<IntentionId, BlockReasons>) -> bool {
    forall|id: IntentionId| #[trigger] b.contains_key(id) ==> b[id].blocked()
}

/// Lifting an event block undoes placing one.
pub proof fn lemma_event_block_roundtrip(b: Map<IntentionId, BlockReasons>, id: IntentionId)
    requires
        reasons_wf(b),
        b.contains_key(id) ==> b[id].pending_events < usize::MAX,
    ensures
        without_event_block(with_event_block(b, id), id) == b,
{
    let b1 = with_event_block(b, id);
    if b.contains_key(id) {
        assert(b1[id].pending_events > 0);
        assert(without_event_block(b1, id) =~= b.insert(id, b[id]));
        assert(b.insert(id, b[id]) =~= b);
    } else {
        assert(without_event_block(b1, id) =~= b);
    }
}

/// Lifting an action block undoes placing one.
pub proof fn lemma_action_block_roundtrip(b: Map<IntentionId, BlockReasons>, id: IntentionId)
    requires
        reasons_wf(b),
        b.contains_key(id) ==> !b[id].pending_action,
    ensures
        without_action_block(with_action_block(b, id), id) == b,
{
    let b1 = with_action_block(b, id);
    if b.contains_key(id) {
        assert(without_action_block(b1, id) =~= b.insert(id, b[id]));
        assert(b.insert(id, b[id]) =~= b);
    } else {
        assert(without_action_block(b1, id) =~= b);
    }
}

/// An intention blocked on both an action and an event stays blocked until both blocks
/// are lifted, in either order.
pub proof fn lemma_blocked_until_every_reason_clears(b: Map<IntentionId, BlockReasons>, id: IntentionId)
    requires
        reasons_wf(b),
        !b.contains_key(id),
    ensures
        without_event_block(with_event_block(with_action_block(b, id), id), id).contains_key(id),
        without_action_block(with_event_block(with_action_block(b, id), id), id).contains_key(id),
        !without_action_block(without_event_block(with_event_block(with_action_block(b, id), id), id), id).contains_key(id),
        !without_event_block(without_action_block(with_event_block(with_action_block(b, id), id), id), id).contains_key(id),
{
}

/// How many frames each intention holds.
pub open spec fn stack_lengths<A>(m: Map<IntentionId, Intention<A>>) -> Map<IntentionId, nat> {
    m.map_values(|i: Intention<A>| i.stack@.len())
}

/// What stepping the intention `id` does to the intentions (`s0` to `s1`), to the contents
/// of the knowledge base and to the raised events, given what the step came to: the
/// intention steps, and is gone once it has run to completion.
pub open spec fn queue_stepped<A>(
    s0: Map<IntentionId, Intention<A>>,
    s1: Map<IntentionId, Intention<A>>,
    id: IntentionId,
    c0: Set<crate::knowledge::KnowledgeModel>,
    c1: Set<crate::knowledge::KnowledgeModel>,
    e0: Seq<(EventSource, TriggeringEvent)>,
    e1: Seq<(EventSource, TriggeringEvent)>,
    s: FrameStep<A>,
) -> bool {
    exists|i1: Intention<A>|
        #[trigger] intention_stepped(s0[id], i1, c0, c1, e0, e1, s)
        && s1 == if s == FrameStep::<A>::Stepped(Ok(StepOk::Done)) { s0.remove(id) } else { s0.insert(id, i1) }
}

/// The intentions of an agent, the reasons each is blocked, the id the next new intention
/// gets, and the scheduler that picks which runnable intention is stepped next.
#[derive(Debug)]
pub struct IntentionQueue<A, Sched> {
    intentions: BTreeMap<IntentionId, Intention<A>>,
    blocked: BTreeMap<IntentionId, BlockReasons>,
    current_id: IntentionId,
    scheduler: Sched,
}

impl<A, Sched> IntentionQueue<A, Sched> {
    /// The intentions, by id.
    pub closed spec fn stacks(&self) -> Map<IntentionId, Intention<A>> {
        self.intentions@
    }

    /// The intentions, each with the number of frames on its stack.
    pub open spec fn intentions(&self) -> Map<IntentionId, nat> {
        stack_lengths(self.stacks())
    }

    /// The reasons of each blocked intention.
    pub closed spec fn blocks(&self) -> Map<IntentionId, BlockReasons> {
        self.blocked@
    }

    /// The id the next new intention gets.
    pub closed spec fn next(&self) -> IntentionId {
        self.current_id
    }

    /// Every recorded reason is a real one, and each intention is filed under its id and
    /// owns its frames.
    pub open spec fn wf(&self) -> bool {
        &&& reasons_wf(self.blocks())
        &&& forall|k: IntentionId| #[trigger] self.stacks().contains_key(k) ==> self.stacks()[k].id == k && self.stacks()[k].owns_frames()
    }

    /// The intentions that may be stepped now.
    pub open spec fn runnable(&self, id: IntentionId) -> bool {
        self.intentions().contains_key(id) && !self.blocks().contains_key(id)
    }

    /// No intention, with the given scheduler.
    pub fn new(scheduler: Sched) -> (r: Self)
        ensures
            r.wf(),
            r.stacks() == Map::<IntentionId, Intention<A>>::empty(),
            r.intentions() == Map::<IntentionId, nat>::empty(),
            r.blocks() == Map::<IntentionId, BlockReasons>::empty(),
            r.next() == 0,
    {
        let r = IntentionQueue { intentions: BTreeMap::new(), blocked: BTreeMap::new(), current_id: 0, scheduler };
        assert(r.intentions() =~= Map::<IntentionId, nat>::empty());
        r
    }

    /// The id for a new intention; the next one gets the id after it.
    fn next_id(&mut self) -> (r: IntentionId)
        requires
            old(self).next() < usize::MAX,
        ensures
            r == old(self).next(),
            final(self).next() == old(self).next() + 1,
            final(self).stacks() == old(self).stacks(),
            final(self).blocks() == old(self).blocks(),
    {
        let id = self.current_id;
        self.current_id = self.current_id + 1;
        id
    }

    /// Whether no intention is left.
    pub fn is_empty(&self) -> (r: bool)
        ensures
            r == (self.intentions().dom() == Set::<IntentionId>::empty()),
    {
        let r = self.intentions.len() == 0;
        proof {
            assert(self.intentions().dom() =~= self.intentions@.dom());
            if r {
                assert(self.intentions@.dom() =~= Set::<IntentionId>::empty());
            } else {
                assert(self.intentions@.dom().len() > 0);
                if self.intentions@.dom() == Set::<IntentionId>::empty() {
                    assert(self.intentions@.dom().len() == 0);
                }
            }
        }
        r
    }

    /// Whether an id is left for a new intention.
    pub fn has_fresh_id(&self) -> (r: bool)
        ensures
            r == (self.next() < usize::MAX),
    {
        self.current_id < usize::MAX
    }

    /// The bindings of the plan on top of the stack of the intention.
    pub fn top_bindings(&self, id: IntentionId) -> (r: Bindings)
        requires
            self.stacks().contains_key(id),
            self.stacks()[id].stack@.len() > 0,
        ensures
            same_bindings(self.stacks()[id].stack@.last().bindings, r),
    {
        let intention = self.intentions.get(&id).unwrap();
        let n = intention.stack.len();
        intention.stack[n - 1].bindings.clone()
    }

    /// The number of plans on the stack of the intention, if it exists.
    pub fn intention_stack_len(&self, id: IntentionId) -> (r: Option<usize>)
        ensures
            match r {
                Some(n) => self.intentions().contains_key(id) && n == self.intentions()[id],
                None => !self.intentions().contains_key(id),
            },
    {
        match self.intentions.get(&id) {
            Some(i) => Some(i.stack_len()),
            None => None,
        }
    }

    /// Blocks the intention on an event it raised; a later [`Self::unblock_event`] lifts it.
    pub fn block_on_event(&mut self, id: IntentionId)
        requires
            old(self).wf(),
            old(self).blocks().contains_key(id) ==> old(self).blocks()[id].pending_events < usize::MAX,
        ensures
            final(self).wf(),
            final(self).blocks() == with_event_block(old(self).blocks(), id),
            final(self).stacks() == old(self).stacks(),
            final(self).next() == old(self).next(),
    {
        let reasons = match self.blocked.get(&id) {
            Some(r) => BlockReasons { pending_events: r.pending_events + 1, pending_action: r.pending_action },
            None => BlockReasons { pending_events: 1, pending_action: false },
        };
        self.blocked.insert(id, reasons);
        proof {
            assert forall|k: IntentionId| #[trigger] self.stacks().contains_key(k) implies self.stacks()[k].id == k && self.stacks()[k].owns_frames() by {
                assert(old(self).stacks().contains_key(k));
            }
            assert forall|i: IntentionId| #[trigger] self.blocked@.contains_key(i) implies self.blocked@[i].blocked() by {
                if i != id {
                    assert(old(self).blocked@.contains_key(i));
                }
            }
        }
    }

    /// Lifts one event block of the intention; with no reason left it is runnable again.
    pub fn unblock_event(&mut self, id: IntentionId)
        requires
            old(self).wf(),
            old(self).blocks().contains_key(id),
            old(self).blocks()[id].pending_events > 0,
        ensures
            final(self).wf(),
            final(self).blocks() == without_event_block(old(self).blocks(), id),
            final(self).stacks() == old(self).stacks(),
            final(self).next() == old(self).next(),
    {
        let old_reasons = *self.blocked.get(&id).unwrap();
        let reasons = BlockReasons { pending_events: old_reasons.pending_events - 1, pending_action: old_reasons.pending_action };
        if reasons.is_blocked() {
            self.blocked.insert(id, reasons);
        } else {
            self.blocked.remove(&id);
        }
        proof {
            assert forall|k: IntentionId| #[trigger] self.stacks().contains_key(k) implies self.stacks()[k].id == k && self.stacks()[k].owns_frames() by {
                assert(old(self).stacks().contains_key(k));
            }
            assert forall|i: IntentionId| #[trigger] self.blocked@.contains_key(i) implies self.blocked@[i].blocked() by {
                if i != id {
                    assert(old(self).blocked@.contains_key(i));
                }
            }
        }
    }

    /// Blocks the intention on an action it dispatched; a later [`Self::unblock_action`]
    /// lifts it. An intention waits for one action at a time.
    pub fn block_on_action(&mut self, id: IntentionId)
        requires
            old(self).wf(),
            old(self).blocks().contains_key(id) ==> !old(self).blocks()[id].pending_action,
        ensures
            final(self).wf(),
            final(self).blocks() == with_action_block(old(self).blocks(), id),
            final(self).stacks() == old(self).stacks(),
            final(self).next() == old(self).next(),
    {
        let reasons = match self.blocked.get(&id) {
            Some(r) => BlockReasons { pending_events: r.pending_events, pending_action: true },
            None => BlockReasons { pending_events: 0, pending_action: true },
        };
        self.blocked.insert(id, reasons);
        proof {
            assert forall|k: IntentionId| #[trigger] self.stacks().contains_key(k) implies self.stacks()[k].id == k && self.stacks()[k].owns_frames() by {
                assert(old(self).stacks().contains_key(k));
            }
            assert forall|i: IntentionId| #[trigger] self.blocked@.contains_key(i) implies self.blocked@[i].blocked() by {
                if i != id {
                    assert(old(self).blocked@.contains_key(i));
                }
            }
        }
    }

    /// Lifts the action block of the intention; with no reason left it is runnable again.
    pub fn unblock_action(&mut self, id: IntentionId)
        requires
            old(self).wf(),
            old(self).blocks().contains_key(id),
            old(self).blocks()[id].pending_action,
        ensures
            final(self).wf(),
            final(self).blocks() == without_action_block(old(self).blocks(), id),
            final(self).stacks() == old(self).stacks(),
            final(self).next() == old(self).next(),
    {
        let old_reasons = *self.blocked.get(&id).unwrap();
        let reasons = BlockReasons { pending_events: old_reasons.pending_events, pending_action: false };
        if reasons.is_blocked() {
            self.blocked.insert(id, reasons);
        } else {
            self.blocked.remove(&id);
        }
        proof {
            assert forall|k: IntentionId| #[trigger] self.stacks().contains_key(k) implies self.stacks()[k].id == k && self.stacks()[k].owns_frames() by {
                assert(old(self).stacks().contains_key(k));
            }
            assert forall|i: IntentionId| #[trigger] self.blocked@.contains_key(i) implies self.blocked@[i].blocked() by {
                if i != id {
                    assert(old(self).blocked@.contains_key(i));
                }
            }
        }
    }

    /// Whether some intention may be stepped now.
    pub fn has_runnable(&self) -> (r: bool)
        ensures
            r == exists|id: IntentionId| self.runnable(id),
    {
        let ghost m = self.intentions@;
        let keys = self.intentions.keys();
        assert(vstd::std_specs::iter::IteratorSpec::remaining(&keys).unref().to_set() == m.dom());
        for k in it: keys
            invariant
                m == self.intentions@,
                it.seq().unref().to_set() == m.dom(),
                forall|i: int| 0 <= i < it.index() ==> self.blocked@.contains_key(*it.seq()[i]),
        {
            if !self.blocked.contains_key(k) {
                assert(self.runnable(*k));
                return true;
            }
        }
        false
    }
}


impl<A, Sched> IntentionQueue<A, Sched> {
    /// The runnable intentions, in increasing order.
    pub fn runnable_ids(&self) -> (r: Vec<IntentionId>)
        ensures
            forall|i: int, j: int| 0 <= i < j < r@.len() ==> r@[i] < r@[j],
            forall|id: IntentionId| r@.contains(id) <==> self.runnable(id),
    {
        let ghost m = self.intentions@;
        let mut out: Vec<IntentionId> = Vec::new();
        let keys = self.intentions.keys();
        let ghost ks = vstd::std_specs::iter::IteratorSpec::remaining(&keys);
        let ghost mut n: int = 0;
        let ghost mut idx: Seq<int> = Seq::empty();
        assert(ks.unref().to_set() == m.dom());
        assert(vstd::std_specs::btree::increasing_seq(ks));
        proof {
            assert forall|a: int, b: int| 0 <= a < b < ks.len() implies *ks[a] < *ks[b] by {
                assert(vstd::std_specs::cmp::OrdSpec::cmp_spec(&ks[a], &ks[b]) is Less);
            }
        }
        for k in it: keys
            invariant
                m == self.intentions@,
                it.seq() == ks,
                n == it.index(),
                ks.unref().to_set() == m.dom(),
                forall|a: int, b: int| 0 <= a < b < ks.len() ==> *ks[a] < *ks[b],
                idx.len() == out@.len(),
                forall|j: int| 0 <= j < out@.len() ==> 0 <= #[trigger] idx[j] < n && out@[j] == *ks[idx[j]],
                forall|a: int, b: int| 0 <= a < b < out@.len() ==> idx[a] < idx[b],
                forall|j: int| 0 <= j < out@.len() ==> self.runnable(#[trigger] out@[j]),
                forall|i: int| 0 <= i < n && !self.blocked@.contains_key(*ks[i]) ==> out@.contains(*#[trigger] ks[i]),
        {
            proof {
                assert(ks.unref()[n] == *ks[n]);
                assert(ks.unref().to_set().contains(ks.unref()[n]));
            }
            if !self.blocked.contains_key(k) {
                let ghost before = out@;
                out.push(*k);
                proof {
                    idx = idx.push(n);
                    assert forall|i: int| 0 <= i < n + 1 && !self.blocked@.contains_key(*ks[i]) implies out@.contains(*#[trigger] ks[i]) by {
                        if i < n {
                            let j = choose|j: int| 0 <= j < before.len() && before[j] == *ks[i];
                            assert(out@[j] == before[j]);
                        } else {
                            assert(out@[out@.len() - 1] == *k);
                        }
                    }
                }
            }
            proof {
                n = n + 1;
            }
        }
        proof {
            assert forall|a: int, b: int| 0 <= a < b < out@.len() implies out@[a] < out@[b] by {
                assert(idx[a] < idx[b]);
            }
            assert forall|id: IntentionId| out@.contains(id) <==> self.runnable(id) by {
                if self.runnable(id) {
                    assert(n == ks.len());
                    assert(ks.unref().to_set().contains(id));
                    let i = choose|i: int| 0 <= i < ks.unref().len() && ks.unref()[i] == id;
                    assert(*ks[i] == id);
                }
                if out@.contains(id) {
                    let j = choose|j: int| 0 <= j < out@.len() && out@[j] == id;
                }
            }
        }
        out
    }

    /// Starts a new intention, or continues an existing one, with the body on top of its
    /// stack, run under the bindings for the event; returns its id.
    pub fn push(&mut self, body: Vec<Formula<A>>, bindings: Bindings, existing_intention: Option<IntentionId>, event: TriggeringEvent) -> (r: IntentionId)
        requires
            old(self).wf(),
            existing_intention is None ==> old(self).next() < usize::MAX,
        ensures
            final(self).wf(),
            r == match existing_intention { Some(i) => i, None => old(self).next() },
            final(self).next() == if existing_intention is None { (old(self).next() + 1) as usize } else { old(self).next() },
            final(self).blocks() == old(self).blocks(),
            final(self).stacks().dom() == old(self).stacks().dom().insert(r),
            forall|k: IntentionId| k != r && #[trigger] old(self).stacks().contains_key(k) ==> final(self).stacks()[k] == old(self).stacks()[k],
            final(self).stacks()[r].stack@.drop_last() == if old(self).stacks().contains_key(r) { old(self).stacks()[r].stack@ } else { Seq::empty() },
            final(self).stacks()[r].stack@.last().intention_id == r,
            final(self).stacks()[r].stack@.last().event == event,
            same_bindings(bindings, final(self).stacks()[r].stack@.last().bindings),
            final(self).stacks()[r].stack@.last().remaining@.len() == body@.len(),
            forall|i: int| 0 <= i < body@.len() ==> #[trigger] final(self).stacks()[r].stack@.last().remaining@[i] == body@[body@.len() - 1 - i],
    {
        let id = match existing_intention {
            Some(i) => i,
            None => self.next_id(),
        };
        let mut intention = match self.intentions.remove(&id) {
            Some(i) => i,
            None => Intention::new(id),
        };
        intention.push(body, bindings, event);
        self.intentions.insert(id, intention);
        proof {
            assert(self.stacks().dom() =~= old(self).stacks().dom().insert(id));
        }
        id
    }

    /// Replaces the scheduler.
    pub fn with_scheduler<NewSched>(self, scheduler: NewSched) -> (r: IntentionQueue<A, NewSched>)
        ensures
            r.stacks() == self.stacks(),
            r.blocks() == self.blocks(),
            r.next() == self.next(),
    {
        IntentionQueue { intentions: self.intentions, blocked: self.blocked, current_id: self.current_id, scheduler }
    }

    /// Takes the intention out of the queue.
    fn take(&mut self, id: IntentionId) -> (r: Intention<A>)
        requires
            old(self).stacks().contains_key(id),
        ensures
            r == old(self).stacks()[id],
            final(self).stacks() == old(self).stacks().remove(id),
            final(self).blocks() == old(self).blocks(),
            final(self).next() == old(self).next(),
    {
        self.intentions.remove(&id).unwrap()
    }

    /// Files the intention under its id again, unless it has run to completion.
    fn put_back(&mut self, id: IntentionId, intention: Intention<A>, outcome: Result<StepOk, StepError>)
        ensures
            final(self).stacks() == if outcome == Ok::<StepOk, StepError>(StepOk::Done) { old(self).stacks() } else { old(self).stacks().insert(id, intention) },
            final(self).blocks() == old(self).blocks(),
            final(self).next() == old(self).next(),
    {
        match outcome {
            Ok(StepOk::Done) => {},
            _ => {
                self.intentions.insert(id, intention);
            },
        }
    }

    /// Finishes the step of the intention that unifies two sides, given their values; an
    /// intention that this completes is gone.
    pub fn finish_unify(&mut self, id: IntentionId, sides: Result<(Term, Term), EvaluationError>) -> (r: Result<StepOk, StepError>)
        requires
            old(self).wf(),
            old(self).stacks().contains_key(id),
            old(self).stacks()[id].stack@.len() > 0,
        ensures
            final(self).wf(),
            final(self).blocks() == old(self).blocks(),
            final(self).next() == old(self).next(),
            exists|i1: Intention<A>| #[trigger] intention_unify_finished(old(self).stacks()[id], i1, sides, r)
                && final(self).stacks() == if r == Ok::<StepOk, StepError>(StepOk::Done) { old(self).stacks().remove(id) } else { old(self).stacks().insert(id, i1) },
            !final(self).stacks().contains_key(id) || frames_work(final(self).stacks()[id].stack@) <= frames_work(old(self).stacks()[id].stack@),
    {
        let mut intention = self.take(id);
        let r = intention.finish_unify(sides);
        let ghost i1 = intention;
        self.put_back(id, intention, r);
        proof {
            assert(intention_unify_finished(old(self).stacks()[id], i1, sides, r));
            if r != Ok::<StepOk, StepError>(StepOk::Done) {
                assert(self.stacks() =~= old(self).stacks().insert(id, i1));
            }
        }
        r
    }
}

impl<A: Execute, Sched> IntentionQueue<A, Sched> {
    /// Finishes the step of the intention that ran an action, given how it went; an
    /// intention that this completes is gone.
    pub fn finish_action(&mut self, id: IntentionId, result: ExecuteResult<Action<A>>, actions: &mut Vec<(Option<IntentionId>, PendingAction<A>)>) -> (r: Result<StepOk, StepError>)
        requires
            old(self).wf(),
            old(self).stacks().contains_key(id),
            old(self).stacks()[id].stack@.len() > 0,
        ensures
            final(self).wf(),
            final(self).blocks() == old(self).blocks(),
            final(self).next() == old(self).next(),
            exists|i1: Intention<A>| #[trigger] intention_action_finished(old(self).stacks()[id], i1, old(actions)@, final(actions)@, result, r)
                && final(self).stacks() == if r == Ok::<StepOk, StepError>(StepOk::Done) { old(self).stacks().remove(id) } else { old(self).stacks().insert(id, i1) },
            dispatched_by(old(actions)@, final(actions)@, id),
            !final(self).stacks().contains_key(id) || frames_work(final(self).stacks()[id].stack@) <= frames_work(old(self).stacks()[id].stack@),
    {
        let mut intention = self.take(id);
        let r = intention.finish_action(result, actions);
        let ghost i1 = intention;
        self.put_back(id, intention, r);
        proof {
            assert(intention_action_finished(old(self).stacks()[id], i1, old(actions)@, actions@, result, r));
            if r != Ok::<StepOk, StepError>(StepOk::Done) {
                assert(self.stacks() =~= old(self).stacks().insert(id, i1));
            }
        }
        r
    }
}

impl<A, Sched: Scheduler> IntentionQueue<A, Sched> {
    /// The runnable intention the scheduler picks to step next, if any is runnable.
    pub fn select_next(&mut self) -> (r: Option<IntentionId>)
        ensures
            r is Some <==> exists|id: IntentionId| old(self).runnable(id),
            r matches Some(id) ==> old(self).runnable(id),
            final(self).stacks() == old(self).stacks(),
            final(self).blocks() == old(self).blocks(),
            final(self).next() == old(self).next(),
    {
        let candidates = self.runnable_ids();
        proof {
            if exists|id: IntentionId| self.runnable(id) {
                let id = choose|id: IntentionId| self.runnable(id);
                assert(candidates@.contains(id));
            }
        }
        self.scheduler.select_intention(&candidates)
    }

    /// Steps the runnable intention the scheduler picks, if any is runnable: its top frame
    /// runs a formula, and an intention that this completes is gone. Returns the intention
    /// stepped and what the step came to; a step that needs a value or an action run is
    /// finished with [`Self::finish_unify`] or [`Self::finish_action`].
    pub fn step(&mut self, knowledge: &mut KnowledgeBase, events: &mut Vec<(EventSource, TriggeringEvent)>) -> (r: Option<(IntentionId, FrameStep<A>)>)
        requires
            old(self).wf(),
            old(knowledge).wf(),
        ensures
            final(self).wf(),
            final(knowledge).wf(),
            final(self).blocks() == old(self).blocks(),
            final(self).next() == old(self).next(),
            r is None <==> !exists|id: IntentionId| old(self).runnable(id),
            r is None ==> final(self).stacks() == old(self).stacks() && final(knowledge).contents() == old(knowledge).contents() && final(events)@ == old(events)@,
            r matches Some((id, s)) ==> old(self).runnable(id)
                && queue_stepped(old(self).stacks(), final(self).stacks(), id, old(knowledge).contents(), final(knowledge).contents(), old(events)@, final(events)@, s),
            r matches Some((id, s)) ==> raised_by(old(events)@, final(events)@, id),
            r matches Some((id, s)) ==> (s == FrameStep::<A>::Stepped(Ok(StepOk::Done)) && !final(self).stacks().contains_key(id))
                || (final(self).stacks().contains_key(id) && frames_work(final(self).stacks()[id].stack@) < frames_work(old(self).stacks()[id].stack@)),
            r matches Some((id, s)) ==> (s is Stepped || (final(self).stacks().contains_key(id) && final(self).stacks()[id].stack@.len() > 0)),
    {
        let id = match self.select_next() {
            Some(id) => id,
            None => {
                return None;
            },
        };
        let mut intention = self.take(id);
        let s = intention.step(knowledge, events);
        let ghost i1 = intention;
        let done = match &s {
            FrameStep::Stepped(Ok(StepOk::Done)) => true,
            _ => false,
        };
        if !done {
            self.intentions.insert(id, intention);
        }
        proof {
            assert(intention_stepped(old(self).stacks()[id], i1, old(knowledge).contents(), knowledge.contents(), old(events)@, events@, s));
            assert(done <==> s == FrameStep::<A>::Stepped(Ok(StepOk::Done)));
            if !done {
                assert(self.stacks() =~= old(self).stacks().insert(id, i1));
            } else {
                assert(self.stacks() =~= old(self).stacks().remove(id));
            }
            assert(self.stacks() == if s == FrameStep::<A>::Stepped(Ok(StepOk::Done)) { old(self).stacks().remove(id) } else { old(self).stacks().insert(id, i1) });
            assert(queue_stepped(old(self).stacks(), self.stacks(), id, old(knowledge).contents(), knowledge.contents(), old(events)@, events@, s));
        }
        Some((id, s))
    }
}

} // verus!
