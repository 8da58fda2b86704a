use vstd::prelude::*;

use std::collections::BTreeMap;

use crate::survey::VoteError;

verus! {

broadcast use vstd::std_specs::btree::group_btree_axioms, vstd::laws_cmp::group_laws_cmp;

/// A store of surveys keyed by identifiers that are handed out in increasing order and
/// never reused. `S` is how a survey is held (directly, or behind a shared handle).
pub struct Registry<S> {
    pub next_id: u64,
    pub surveys: BTreeMap<u64, S>,
}

impl<S> Registry<S> {
    /// Every identifier in use is below the next to be handed out.
    pub open spec fn wf(&self) -> bool {
        forall|id: u64| #[trigger] self.surveys@.contains_key(id) ==> id < self.next_id
    }

    /// An empty registry whose first identifier is zero.
    pub fn new() -> (r: Registry<S>)
        ensures
            r.wf(),
            r.next_id == 0,
            r.surveys@ == Map::<u64, S>::empty(),
    {
        Registry { next_id: 0, surveys: BTreeMap::new() }
    }

    /// Hands out the next identifier.
    pub fn allocate_id(&mut self) -> (id: u64)
        requires
            old(self).wf(),
            old(self).next_id < u64::MAX,
        ensures
            final(self).wf(),
            id == old(self).next_id,
            final(self).next_id == old(self).next_id + 1,
            final(self).surveys@ == old(self).surveys@,
    {
        let id = self.next_id;
        self.next_id = id + 1;
        id
    }

    /// Stores `survey` under a fresh identifier and returns that identifier.
    pub fn create(&mut self, survey: S) -> (id: u64)
        requires
            old(self).wf(),
            old(self).next_id < u64::MAX,
        ensures
            final(self).wf(),
            id == old(self).next_id,
            !old(self).surveys@.contains_key(id),
            final(self).next_id == old(self).next_id + 1,
            final(self).surveys@ == old(self).surveys@.insert(id, survey),
    {
        let id = self.allocate_id();
        self.surveys.insert(id, survey);
        id
    }

    /// The survey stored under `id`, or `UnknownSurvey`.
    pub fn get(&self, id: u64) -> (r: Result<&S, VoteError>)
        ensures
            r is Err <==> !self.surveys@.contains_key(id),
            r is Err ==> r == Err::<&S, VoteError>(VoteError::UnknownSurvey),
            r matches Ok(s) ==> *s == self.surveys@[id],
    {
        match self.surveys.get(&id) {
            Some(s) => Ok(s),
            None => Err(VoteError::UnknownSurvey),
        }
    }
}

/// Identifiers never collide: the identifier that the next creation receives is held by
/// no survey yet, and the one after it by none either.
pub proof fn lemma_ids_fresh<S>(reg: Registry<S>)
    requires
        reg.wf(),
    ensures
        forall|k: u64| k >= reg.next_id ==> !#[trigger] reg.surveys@.contains_key(k),
{
}

} // verus!
