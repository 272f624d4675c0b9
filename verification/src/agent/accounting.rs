//! Why each intention is blocked: the events it raised that wait in the queue, and the
//! action it dispatched that has not finished.

use vstd::prelude::*;

use crate::event::{swap_remove_front, EventSource, GoalKind, Trigger};
use crate::intention::{BlockReasons, IntentionId, PendingAction};
use crate::term::LiteralModel;

verus! {

/// How many times `x` occurs in `s`.
pub open spec fn occurrences<T>(s: Seq<T>, x: T) -> nat
    decreases s.len(),
{
    if s.len() == 0 {
        0
    } else {
        occurrences(s.drop_last(), x) + if s.last() == x { 1nat } else { 0nat }
    }
}

/// The occurrences in two sequences put together add up.
pub proof fn lemma_occurrences_concat<T>(a: Seq<T>, b: Seq<T>, x: T)
    ensures
        occurrences(a + b, x) == occurrences(a, x) + occurrences(b, x),
    decreases b.len(),
{
    if b.len() == 0 {
        assert(a + b =~= a);
    } else {
        lemma_occurrences_concat(a, b.drop_last(), x);
        assert((a + b).drop_last() =~= a + b.drop_last());
        assert((a + b).last() == b.last());
    }
}

/// Nothing occurs more often than the sequence is long.
pub proof fn lemma_occurrences_bound<T>(s: Seq<T>, x: T)
    ensures
        occurrences(s, x) <= s.len(),
    decreases s.len(),
{
    if s.len() > 0 {
        lemma_occurrences_bound(s.drop_last(), x);
    }
}

/// The occurrences in a one-element sequence.
pub proof fn lemma_occurrences_single<T>(y: T, x: T)
    ensures
        occurrences(seq![y], x) == if y == x { 1nat } else { 0nat },
{
    assert(seq![y].drop_last() =~= Seq::<T>::empty());
    assert(occurrences(Seq::<T>::empty(), x) == 0);
}

/// Taking out the element at `i` (the first one taking its place) takes one occurrence of
/// it away, and leaves those of everything else.
pub proof fn lemma_occurrences_swap_remove_front<T>(s: Seq<T>, i: int, x: T)
    requires
        0 <= i < s.len(),
    ensures
        occurrences(swap_remove_front(s, i), x) + (if s[i] == x { 1nat } else { 0nat }) == occurrences(s, x),
{
    let n = s.len() as int;
    lemma_occurrences_single(s[0], x);
    lemma_occurrences_single(s[i], x);
    if i == 0 {
        assert(s =~= seq![s[0]] + s.drop_first());
        lemma_occurrences_concat(seq![s[0]], s.drop_first(), x);
    } else {
        let mid = s.subrange(1, i);
        let rest = s.subrange(i + 1, n);
        assert(s =~= seq![s[0]] + (mid + (seq![s[i]] + rest)));
        lemma_occurrences_concat(seq![s[0]], mid + (seq![s[i]] + rest), x);
        lemma_occurrences_concat(mid, seq![s[i]] + rest, x);
        lemma_occurrences_concat(seq![s[i]], rest, x);
        assert(swap_remove_front(s, i) =~= mid + (seq![s[0]] + rest));
        lemma_occurrences_concat(mid, seq![s[0]] + rest, x);
        lemma_occurrences_concat(seq![s[0]], rest, x);
    }
}

/// A queued event, by its value.
pub type QueuedEvent = ((Trigger, LiteralModel, Option<GoalKind>), EventSource);

/// The sources of the queued events, in order.
pub open spec fn event_sources(e: Seq<QueuedEvent>) -> Seq<EventSource> {
    e.map_values(|q: QueuedEvent| q.1)
}

/// The intentions that hold the pending actions, in order.
pub open spec fn action_holders<A>(a: Seq<(Option<IntentionId>, PendingAction<A>)>) -> Seq<Option<IntentionId>> {
    a.map_values(|p: (Option<IntentionId>, PendingAction<A>)| p.0)
}

/// How many of the events an intention raised are still to be handled, by its block.
pub open spec fn events_awaited(b: Map<IntentionId, BlockReasons>, id: IntentionId) -> nat {
    if b.contains_key(id) { b[id].pending_events as nat } else { 0 }
}

/// Whether an intention waits for an action it dispatched, by its block.
pub open spec fn action_awaited(b: Map<IntentionId, BlockReasons>, id: IntentionId) -> bool {
    b.contains_key(id) && b[id].pending_action
}

/// Each intention is blocked on exactly the queued events it raised, and on the pending
/// action it holds, if it holds one; no intention holds two.
pub open spec fn blocks_accounted<A>(b: Map<IntentionId, BlockReasons>, e: Seq<QueuedEvent>, a: Seq<(Option<IntentionId>, PendingAction<A>)>) -> bool {
    &&& forall|id: IntentionId| #[trigger] events_awaited(b, id) == occurrences(event_sources(e), EventSource::Internal(id))
    &&& forall|id: IntentionId| #[trigger] action_awaited(b, id) == (occurrences(action_holders(a), Some(id)) == 1)
    &&& forall|id: IntentionId| #[trigger] occurrences(action_holders(a), Some(id)) <= 1
}

/// The sources of what is left of the queue once an event is taken out.
pub proof fn lemma_sources_swap_remove_front(e: Seq<QueuedEvent>, i: int)
    requires
        0 <= i < e.len(),
    ensures
        event_sources(swap_remove_front(e, i)) == swap_remove_front(event_sources(e), i),
{
    assert(event_sources(swap_remove_front(e, i)) =~= swap_remove_front(event_sources(e), i));
}

/// The sources of a queue with one more event.
pub proof fn lemma_sources_push(e: Seq<QueuedEvent>, q: QueuedEvent)
    ensures
        event_sources(e.push(q)) == event_sources(e) + seq![q.1],
{
    assert(event_sources(e.push(q)) =~= event_sources(e) + seq![q.1]);
}

/// The holders of the pending actions with one more.
pub proof fn lemma_holders_push<A>(a: Seq<(Option<IntentionId>, PendingAction<A>)>, p: (Option<IntentionId>, PendingAction<A>))
    ensures
        action_holders(a.push(p)) == action_holders(a) + seq![p.0],
{
    assert(action_holders(a.push(p)) =~= action_holders(a) + seq![p.0]);
}

/// The holders of the pending actions but the first.
pub proof fn lemma_holders_drop_first<A>(a: Seq<(Option<IntentionId>, PendingAction<A>)>)
    requires
        a.len() > 0,
    ensures
        action_holders(a) == seq![a[0].0] + action_holders(a.drop_first()),
{
    assert(action_holders(a) =~= seq![a[0].0] + action_holders(a.drop_first()));
}

} // verus!
