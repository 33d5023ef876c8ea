//! The set of board signatures seen in one game attempt, with the
//! abandonment cutoff that keeps a runaway search from growing forever.

use vstd::prelude::*;

use vstd::hash_set::HashSetWithView;

verus! {

/// After this many distinct board states, a search session gives up.
pub const ABANDON_THRESHOLD: u32 = 500000;

/// What registering a board reports: a state never seen before, a repeat of
/// a seen state, or a forced repeat because the session is abandoned.
#[derive(Copy, Clone, PartialEq, Eq, Structural, Debug)]
pub enum Verdict {
    Novel,
    Repeat,
    Abandon,
}

/// The signatures of the boards seen so far in one session.
pub struct VisitedSet {
    set: HashSetWithView<u64>,
    abandoned: bool,
}

impl VisitedSet {
    /// The signature keys seen so far.
    pub closed spec fn keys(self) -> Set<u64> {
        self.set@
    }

    /// Whether this session has given up.
    pub closed spec fn is_abandoned(self) -> bool {
        self.abandoned
    }

    /// The set is finite and never grows past the threshold; the threshold
    /// is only ever reached on the registration that abandons the session.
    pub closed spec fn wf(self) -> bool {
        &&& self.keys().finite()
        &&& self.keys().len() <= ABANDON_THRESHOLD + 1
        &&& (!self.abandoned ==> self.keys().len() <= ABANDON_THRESHOLD)
    }

    /// What well-formedness guarantees about the set's size.
    pub proof fn lemma_wf_bounds(self)
        requires
            self.wf(),
        ensures
            self.keys().finite(),
            self.keys().len() <= ABANDON_THRESHOLD + 1,
            !self.is_abandoned() ==> self.keys().len() <= ABANDON_THRESHOLD,
    {
    }

    /// An empty visited set for a fresh session.
    pub fn new() -> (r: VisitedSet)
        ensures
            r.wf(),
            r.keys() == Set::<u64>::empty(),
            !r.is_abandoned(),
    {
        proof {
            broadcast use vstd::std_specs::hash::group_hash_axioms;

        }
        VisitedSet { set: HashSetWithView::new(), abandoned: false }
    }

    /// How many distinct signatures have been seen.
    pub fn len(&self) -> (r: usize)
        ensures
            r == self.keys().len(),
    {
        self.set.len()
    }

    /// Whether the session has given up.
    pub fn abandoned(&self) -> (r: bool)
        ensures
            r == self.is_abandoned(),
    {
        self.abandoned
    }

    /// Register a signature key. A key seen before reports `Repeat`; an
    /// abandoned session reports `Abandon` without recording anything; a
    /// new key is recorded and reports `Novel`, unless recording it pushes
    /// the session past the threshold, which abandons it and reports
    /// `Abandon`. Only a `Novel` verdict invites the caller to search on.
    pub fn register(&mut self, key: u64) -> (v: Verdict)
        requires
            old(self).wf(),
        ensures
            final(self).wf(),
            old(self).is_abandoned() ==> v == Verdict::Abandon && *final(self) == *old(self),
            !old(self).is_abandoned() && old(self).keys().contains(key) ==> v == Verdict::Repeat
                && *final(self) == *old(self),
            !old(self).is_abandoned() && !old(self).keys().contains(key) ==> final(self).keys()
                == old(self).keys().insert(key) && final(self).keys().len() == old(
                self,
            ).keys().len() + 1,
            v == Verdict::Novel <==> (!old(self).is_abandoned() && !old(self).keys().contains(key)
                && old(self).keys().len() + 1 <= ABANDON_THRESHOLD),
            !old(self).is_abandoned() && !old(self).keys().contains(key) && old(
                self,
            ).keys().len() + 1 > ABANDON_THRESHOLD ==> v == Verdict::Abandon,
            v == Verdict::Novel ==> !final(self).is_abandoned(),
            final(self).is_abandoned() == (old(self).is_abandoned() || (!old(
                self,
            ).keys().contains(key) && old(self).keys().len() + 1 > ABANDON_THRESHOLD)),
            final(self).keys().len() >= old(self).keys().len(),
    {
        if self.abandoned {
            return Verdict::Abandon;
        }
        if self.set.contains(&key) {
            return Verdict::Repeat;
        }
        self.set.insert(key);
        if self.set.len() > ABANDON_THRESHOLD as usize {
            self.abandoned = true;
            return Verdict::Abandon;
        }
        Verdict::Novel
    }
}

} // verus!
