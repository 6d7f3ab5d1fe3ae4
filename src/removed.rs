use vstd::prelude::*;
use crate::grid::Wall;

verus! {

/// The set of carved walls: a wall in the set is a passage between the two
/// cells it separates. Walls are kept in the order they were carved.
pub struct RemovedWalls {
    walls: Vec<Wall>,
}

impl View for RemovedWalls {
    type V = Set<Wall>;

    closed spec fn view(&self) -> Set<Wall> {
        self.walls@.to_set()
    }
}

impl RemovedWalls {
    /// No wall is stored twice.
    pub closed spec fn wf(&self) -> bool {
        self.walls@.no_duplicates()
    }

    pub fn new() -> (r: RemovedWalls)
        ensures
            r@ == Set::<Wall>::empty(),
            r.wf(),
    {
        let r = RemovedWalls { walls: Vec::new() };
        assert(r@ =~= Set::<Wall>::empty());
        r
    }

    pub fn contains(&self, wall: &Wall) -> (r: bool)
        ensures
            r == self@.contains(*wall),
    {
        let mut i: usize = 0;
        while i < self.walls.len()
            invariant
                0 <= i <= self.walls@.len(),
                forall|j: int| 0 <= j < i ==> self.walls@[j] != *wall,
            decreases self.walls@.len() - i,
        {
            if self.walls[i] == *wall {
                return true;
            }
            i = i + 1;
        }
        false
    }

    /// Carves `wall`; carving a wall twice leaves the set as it was.
    pub fn insert(&mut self, wall: Wall)
        requires
            old(self).wf(),
        ensures
            final(self).wf(),
            final(self)@ == old(self)@.insert(wall),
    {
        if !self.contains(&wall) {
            let ghost before = self.walls@;
            self.walls.push(wall);
            assert(self.walls@ =~= before.push(wall));
            proof {
                before.lemma_push_to_set_commute(wall);
            }
        } else {
            assert(old(self)@.insert(wall) =~= old(self)@);
        }
    }

    /// Number of carved walls.
    pub fn len(&self) -> (r: usize)
        requires
            self.wf(),
        ensures
            r == self@.len(),
            self@.finite(),
    {
        proof {
            self.walls@.unique_seq_to_set();
        }
        self.walls.len()
    }

    /// The carved walls, in the order they were carved.
    pub fn to_vec(&self) -> (r: Vec<Wall>)
        requires
            self.wf(),
        ensures
            r@.to_set() == self@,
            r@.no_duplicates(),
    {
        self.walls.clone()
    }
}

} // verus!
