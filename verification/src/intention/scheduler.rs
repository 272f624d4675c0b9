//! Which runnable intention is stepped next.

use vstd::prelude::*;

use super::IntentionId;

verus! {

broadcast use vstd::std_specs::vec::group_vec_axioms;

/// Picks which of the runnable intentions is stepped next.
pub trait Scheduler {
    /// One of the candidates, if there is any.
    fn select_intention(&mut self, candidates: &Vec<IntentionId>) -> (r: Option<IntentionId>)
        ensures
            r is Some <==> candidates@.len() > 0,
            r matches Some(id) ==> candidates@.contains(id),
    ;
}

/// Favours the longest running intention until it has run to completion: the first
/// candidate.
#[derive(Debug, Default, Clone, Copy, PartialEq, Eq)]
pub struct Fifo;

impl Scheduler for Fifo {
    fn select_intention(&mut self, candidates: &Vec<IntentionId>) -> (r: Option<IntentionId>)
        ensures
            r == if candidates@.len() > 0 { Some(candidates@[0]) } else { None::<IntentionId> },
    {
        if candidates.len() > 0 {
            assert(candidates@.contains(candidates@[0]));
            Some(candidates[0])
        } else {
            None
        }
    }
}

/// Picks a candidate (roughly) uniformly at random each step, so that a long-running
/// intention does not starve the others; a xorshift64 generator with a fixed seed.
#[derive(Debug, Clone, Copy, PartialEq, Eq)]
pub struct Random {
    state: u64,
}

/// One step of the xorshift64 generator.
pub open spec fn xorshift(x: u64) -> u64 {
    let a = x ^ (x << 13u64);
    let b = a ^ (a >> 7u64);
    b ^ (b << 17u64)
}

/// Reservoir sampling of one candidate: the `k`-th candidate (counting from 1) replaces
/// the choice when the `k`-th number drawn is a multiple of `k`. The chosen candidate and
/// the state of the generator after the draws.
pub open spec fn reservoir(state: u64, cs: Seq<IntentionId>) -> (Option<IntentionId>, u64)
    decreases cs.len(),
{
    if cs.len() == 0 {
        (None, state)
    } else {
        let (prev, st) = reservoir(state, cs.drop_last());
        let x = xorshift(st);
        (if x % (cs.len() as u64) == 0 { Some(cs.last()) } else { prev }, x)
    }
}

pub proof fn lemma_reservoir_picks_a_candidate(state: u64, cs: Seq<IntentionId>)
    requires
        cs.len() <= u64::MAX,
    ensures
        reservoir(state, cs).0 is Some <==> cs.len() > 0,
        reservoir(state, cs).0 matches Some(id) ==> cs.contains(id),
    decreases cs.len(),
{
    if cs.len() > 0 {
        lemma_reservoir_picks_a_candidate(state, cs.drop_last());
        let (prev, st) = reservoir(state, cs.drop_last());
        let x = xorshift(st);
        if cs.len() == 1 {
            assert(x % 1u64 == 0);
        }
        if reservoir(state, cs).0 == Some(cs.last()) {
            assert(cs.contains(cs[cs.len() - 1]));
        } else if let Some(id) = prev {
            let j = choose|j: int| 0 <= j < cs.drop_last().len() && cs.drop_last()[j] == id;
            assert(cs[j] == id);
        }
    }
}

impl Random {
    pub closed spec fn state(&self) -> u64 {
        self.state
    }

    /// Advances the generator and returns the number it drew.
    pub fn next_u64(&mut self) -> (r: u64)
        ensures
            r == xorshift(old(self).state()),
            final(self).state() == r,
    {
        let mut x = self.state;
        x = x ^ (x << 13u64);
        x = x ^ (x >> 7u64);
        x = x ^ (x << 17u64);
        self.state = x;
        x
    }
}

impl Default for Random {
    fn default() -> (r: Self)
        ensures
            r.state() == 0x9E3779B97F4A7C15u64,
    {
        Random { state: 0x9E3779B97F4A7C15u64 }
    }
}

impl Scheduler for Random {
    fn select_intention(&mut self, candidates: &Vec<IntentionId>) -> (r: Option<IntentionId>)
        ensures
            (r, final(self).state()) == reservoir(old(self).state(), candidates@),
    {
        let ghost s0 = self.state;
        let mut chosen: Option<IntentionId> = None;
        let mut count: u64 = 0;
        let mut i: usize = 0;
        assert(candidates@.take(0) =~= Seq::<IntentionId>::empty());
        while i < candidates.len()
            invariant
                i <= candidates@.len(),
                count == i,
                candidates@.len() == candidates.len(),
                (chosen, self.state) == reservoir(s0, candidates@.take(i as int)),
            decreases candidates@.len() - i,
        {
            let id = candidates[i];
            count = count + 1;
            proof {
                assert(candidates@.take(i + 1).drop_last() =~= candidates@.take(i as int));
                assert(candidates@.take(i + 1).last() == id);
            }
            if self.next_u64() % count == 0 {
                chosen = Some(id);
            }
            i += 1;
        }
        assert(candidates@.take(candidates@.len() as int) =~= candidates@);
        proof {
            assert(candidates@.len() == candidates.len());
            lemma_reservoir_picks_a_candidate(s0, candidates@);
        }
        chosen
    }
}

} // verus!
