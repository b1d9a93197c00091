//! Which time slots of which rooms are already claimed during one run.
use vstd::prelude::*;
use std::collections::HashSet;

verus! {

broadcast use vstd::std_specs::hash::group_hash_axioms;

/// Misuse of a [`ConflictIndex`]; only a faulty caller can cause one.
#[derive(PartialEq, Eq, Structural, Clone, Copy, Debug)]
pub enum IndexError {
    /// A slot to commit was already claimed for the room.
    InvalidCommit,
    /// A slot to release was not claimed for the room.
    InvalidRelease,
}

/// The claims `(room, slot)` that placing an activity with `slots` into `room` makes.
pub open spec fn claims_of(room: usize, slots: Seq<u32>) -> Set<(usize, u32)> {
    Set::new(|c: (usize, u32)| c.0 == room && slots.contains(c.1))
}

/// No slot of `slots` is claimed for `room` in `claims`.
pub open spec fn is_free(claims: Set<(usize, u32)>, room: usize, slots: Seq<u32>) -> bool {
    forall|i: int| 0 <= i < slots.len() ==> !claims.contains((room, #[trigger] slots[i]))
}

/// Every slot of `slots` is claimed for `room` in `claims`.
pub open spec fn is_held(claims: Set<(usize, u32)>, room: usize, slots: Seq<u32>) -> bool {
    forall|i: int| 0 <= i < slots.len() ==> claims.contains((room, #[trigger] slots[i]))
}

/// The hash key of the claim of `slot` in `room`: distinct claims get
/// distinct keys.
pub open spec fn claim_key(room: usize, slot: u32) -> u128 {
    (room as int * 0x1_0000_0000 + slot as int) as u128
}

proof fn lemma_claim_key(room: usize, slot: u32)
    ensures
        room as int * 0x1_0000_0000 + slot as int <= u128::MAX,
        claim_key(room, slot) == room as int * 0x1_0000_0000 + slot as int,
{
    assert(room as int * 0x1_0000_0000 <= 0xffff_ffff_ffff_ffff * 0x1_0000_0000) by (nonlinear_arith)
        requires
            room as int <= 0xffff_ffff_ffff_ffff,
    ;
}

proof fn lemma_claim_key_injective(r1: usize, s1: u32, r2: usize, s2: u32)
    requires
        claim_key(r1, s1) == claim_key(r2, s2),
    ensures
        r1 == r2 && s1 == s2,
{
    lemma_claim_key(r1, s1);
    lemma_claim_key(r2, s2);
    let a = r1 as int;
    let b = r2 as int;
    if a < b {
        assert(a * 0x1_0000_0000 + 0x1_0000_0000 <= b * 0x1_0000_0000) by (nonlinear_arith)
            requires
                a < b,
        ;
    } else if b < a {
        assert(b * 0x1_0000_0000 + 0x1_0000_0000 <= a * 0x1_0000_0000) by (nonlinear_arith)
            requires
                b < a,
        ;
    }
}

fn key_of(room: usize, slot: u32) -> (k: u128)
    ensures
        k == claim_key(room, slot),
{
    proof {
        lemma_claim_key(room, slot);
    }
    (room as u128) * 0x1_0000_0000 + (slot as u128)
}

/// The set of claimed `(room, slot)` pairs, held in a hash set of their keys
/// so that each query costs one lookup per slot.
pub struct ConflictIndex {
    keys: HashSet<u128>,
}

impl View for ConflictIndex {
    type V = Set<(usize, u32)>;

    closed spec fn view(&self) -> Set<(usize, u32)> {
        Set::new(|c: (usize, u32)| self.keys@.contains(claim_key(c.0, c.1)))
    }
}

impl ConflictIndex {
    /// An index with nothing claimed.
    pub fn new() -> (r: ConflictIndex)
        ensures
            r@ == Set::<(usize, u32)>::empty(),
    {
        let r = ConflictIndex { keys: HashSet::new() };
        assert(r@ =~= Set::<(usize, u32)>::empty());
        r
    }

    fn holds(&self, room: usize, s: u32) -> (r: bool)
        ensures
            r == self@.contains((room, s)),
    {
        let k = key_of(room, s);
        self.keys.contains(&k)
    }

    /// True iff none of `slots` is claimed for `room`.
    pub fn is_available(&self, room: usize, slots: &Vec<u32>) -> (r: bool)
        ensures
            r == is_free(self@, room, slots@),
    {
        let mut i: usize = 0;
        while i < slots.len()
            invariant
                forall|k: int| 0 <= k < i ==> !self@.contains((room, #[trigger] slots@[k])),
            decreases slots.len() - i,
        {
            if self.holds(room, slots[i]) {
                return false;
            }
            i += 1;
        }
        true
    }

    /// Claims all of `slots` for `room`; refused, with nothing changed, when one
    /// of them is already claimed for it.
    pub fn commit(&mut self, room: usize, slots: &Vec<u32>) -> (r: Result<(), IndexError>)
        ensures
            r is Ok <==> is_free(old(self)@, room, slots@),
            r is Ok ==> final(self)@ == old(self)@.union(claims_of(room, slots@)),
            r is Err ==> r == Err::<(), IndexError>(IndexError::InvalidCommit) && final(self)@
                == old(self)@,
    {
        if !self.is_available(room, slots) {
            return Err(IndexError::InvalidCommit);
        }
        let mut i: usize = 0;
        while i < slots.len()
            invariant
                i <= slots@.len(),
                forall|c: (usize, u32)| #[trigger] self@.contains(c) == (old(self)@.contains(c) || (
                c.0 == room && exists|j: int| 0 <= j < i && slots@[j] == c.1)),
            decreases slots.len() - i,
        {
            let ghost before = self@;
            let k = key_of(room, slots[i]);
            self.keys.insert(k);
            assert forall|c: (usize, u32)| #[trigger] self@.contains(c) == (before.contains(c) || c
                == (room, slots@[i as int])) by {
                if claim_key(c.0, c.1) == k {
                    lemma_claim_key_injective(c.0, c.1, room, slots@[i as int]);
                }
            }
            i += 1;
        }
        assert(self@ =~= old(self)@.union(claims_of(room, slots@)));
        Ok(())
    }

    /// Gives back all of `slots` for `room`; refused, with nothing changed, when
    /// one of them is not claimed for it.
    pub fn release(&mut self, room: usize, slots: &Vec<u32>) -> (r: Result<(), IndexError>)
        ensures
            r is Ok <==> is_held(old(self)@, room, slots@),
            r is Ok ==> final(self)@ == old(self)@.difference(claims_of(room, slots@)),
            r is Err ==> r == Err::<(), IndexError>(IndexError::InvalidRelease) && final(self)@
                == old(self)@,
    {
        let mut i: usize = 0;
        while i < slots.len()
            invariant
                forall|k: int| 0 <= k < i ==> self@.contains((room, #[trigger] slots@[k])),
            decreases slots.len() - i,
        {
            if !self.holds(room, slots[i]) {
                return Err(IndexError::InvalidRelease);
            }
            i += 1;
        }
        let mut i: usize = 0;
        while i < slots.len()
            invariant
                i <= slots@.len(),
                forall|c: (usize, u32)| #[trigger] self@.contains(c) == (old(self)@.contains(c) && !(
                c.0 == room && exists|j: int| 0 <= j < i && slots@[j] == c.1)),
            decreases slots.len() - i,
        {
            let ghost before = self@;
            let k = key_of(room, slots[i]);
            self.keys.remove(&k);
            assert forall|c: (usize, u32)| #[trigger] self@.contains(c) == (before.contains(c) && c
                != (room, slots@[i as int])) by {
                if claim_key(c.0, c.1) == k {
                    lemma_claim_key_injective(c.0, c.1, room, slots@[i as int]);
                }
            }
            i += 1;
        }
        assert(self@ =~= old(self)@.difference(claims_of(room, slots@)));
        Ok(())
    }
}

} // verus!
