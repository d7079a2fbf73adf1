//! A set of positions with constant-time membership.

use vstd::prelude::*;
use std::collections::HashSet;
use crate::grid::Position;

verus! {

broadcast use vstd::std_specs::hash::group_hash_axioms;

/// A finite set of positions. Each position is stored under a number of its
/// own, so that membership is one lookup in a hash set of integers.
pub struct PositionSet {
    keys: HashSet<u128>,
    members: Ghost<Set<Position>>,
}

/// The number under which a position is stored: `x` in the upper half of the
/// word and `y` in the lower, so that two positions never share one.
pub open spec fn key_of(p: Position) -> u128 {
    (p.x * 0x1_0000_0000_0000_0000 + p.y) as u128
}

impl View for PositionSet {
    type V = Set<Position>;

    closed spec fn view(&self) -> Set<Position> {
        self.members@
    }
}

impl PositionSet {
    /// The stored numbers are those of the members, and the members are finitely many.
    pub closed spec fn wf(self) -> bool {
        &&& self.members@.finite()
        &&& forall|p: Position| self.members@.contains(p) <==> self.keys@.contains(key_of(p))
    }

    /// The number under which `p` is stored.
    fn key(p: &Position) -> (k: u128)
        ensures
            k == key_of(*p),
    {
        (p.x as u128) * 0x1_0000_0000_0000_0000u128 + (p.y as u128)
    }

    /// The empty set.
    pub fn new() -> (s: PositionSet)
        ensures
            s.wf(),
            s@ == Set::<Position>::empty(),
    {
        PositionSet { keys: HashSet::new(), members: Ghost(Set::empty()) }
    }

    /// The empty set, with room for `capacity` positions.
    pub fn with_capacity(capacity: usize) -> (s: PositionSet)
        ensures
            s.wf(),
            s@ == Set::<Position>::empty(),
    {
        PositionSet { keys: HashSet::with_capacity(capacity), members: Ghost(Set::empty()) }
    }

    /// Whether `p` is a member.
    pub fn contains(&self, p: &Position) -> (found: bool)
        requires
            self.wf(),
        ensures
            found == self@.contains(*p),
    {
        let k = Self::key(p);
        self.keys.contains(&k)
    }

    /// Makes `p` a member. Nothing changes if it is one already.
    pub fn insert(&mut self, p: Position)
        requires
            old(self).wf(),
        ensures
            final(self).wf(),
            final(self)@ == old(self)@.insert(p),
    {
        let k = Self::key(&p);
        self.keys.insert(k);
        self.members = Ghost(self.members@.insert(p));
        proof {
            assert forall|q: Position| self.members@.contains(q) <==> self.keys@.contains(
                key_of(q),
            ) by {
                if key_of(q) == key_of(p) {
                    assert(q.y == p.y && q.x == p.x);
                }
            }
        }
    }
}

} // verus!
