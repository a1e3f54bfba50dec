//! The nodes that were soft-deleted.

use vstd::prelude::*;

verus! {

/// The ids that were marked as deleted. Ids that were never marked are live, those
/// of nodes that do not exist yet among them.
#[derive(Clone, Debug)]
pub struct Tombstones {
    /// One mark per id, as far as ids were marked.
    marks: Vec<bool>,
}

/// Which ids may be reported when those of `dead` may not.
pub open spec fn alive(dead: Set<usize>) -> spec_fn(usize) -> bool {
    |id: usize| !dead.contains(id)
}

/// How many of the ids below `limit` are not dead.
pub open spec fn live_below(dead: Set<usize>, limit: nat) -> nat
    decreases limit,
{
    if limit == 0 {
        0
    } else {
        let rest = live_below(dead, (limit - 1) as nat);
        if dead.contains((limit - 1) as usize) {
            rest
        } else {
            rest + 1
        }
    }
}

/// There are no more live ids than ids.
pub proof fn lemma_live_below(dead: Set<usize>, limit: nat)
    ensures
        live_below(dead, limit) <= limit,
    decreases limit,
{
    if limit > 0 {
        lemma_live_below(dead, (limit - 1) as nat);
    }
}

/// The live ids below a limit are counted one by one: their number is that of the set
/// that holds them.
pub proof fn law_live_ids_are_counted(dead: Set<usize>, limit: nat)
    requires
        limit <= usize::MAX,
    ensures
        Set::new(|id: int| 0 <= id < limit && !dead.contains(id as usize)).finite(),
        live_below(dead, limit) == Set::new(
            |id: int| 0 <= id < limit && !dead.contains(id as usize),
        ).len(),
    decreases limit,
{
    let all = Set::new(|id: int| 0 <= id < limit && !dead.contains(id as usize));
    if limit == 0 {
        assert(all =~= Set::empty());
    } else {
        let below = (limit - 1) as nat;
        let fewer = Set::new(|id: int| 0 <= id < below && !dead.contains(id as usize));
        law_live_ids_are_counted(dead, below);
        if dead.contains(below as usize) {
            assert(all =~= fewer);
        } else {
            assert(all =~= fewer.insert(below as int));
        }
    }
}

impl View for Tombstones {
    type V = Set<usize>;

    closed spec fn view(&self) -> Set<usize> {
        Set::new(|id: usize| id < self.marks@.len() && self.marks@[id as int])
    }
}

impl Tombstones {
    /// No id is marked.
    pub fn none() -> (tombstones: Self)
        ensures
            tombstones@ == Set::<usize>::empty(),
    {
        let tombstones = Tombstones { marks: Vec::new() };
        assert(tombstones@ =~= Set::<usize>::empty());
        tombstones
    }

    /// Whether an id was marked.
    pub fn contains(&self, id: usize) -> (marked: bool)
        ensures
            marked == self@.contains(id),
    {
        id < self.marks.len() && self.marks[id]
    }

    /// Marks an id.
    pub fn mark(&mut self, id: usize)
        requires
            id < isize::MAX,
        ensures
            final(self)@ == old(self)@.insert(id),
    {
        if id >= self.marks.len() {
            self.marks.resize(id + 1, false);
        }
        self.marks[id] = true;
        assert(self@ =~= old(self)@.insert(id));
    }

    /// How many of the ids below `limit` are not marked.
    pub fn count_live(&self, limit: usize) -> (count: usize)
        ensures
            count == live_below(self@, limit as nat),
    {
        let mut count: usize = 0;
        let mut id: usize = 0;
        while id < limit
            invariant
                id <= limit,
                count <= id,
                count == live_below(self@, id as nat),
            decreases limit - id,
        {
            if !self.contains(id) {
                count += 1;
            }
            id += 1;
        }
        count
    }
}

} // verus!
