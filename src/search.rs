//! The mathematical model of the assignment search: backtracking over rooms
//! in a fixed order, and the greedy pass that explains a failure.
use vstd::prelude::*;
use crate::models::{ActivityView, RoomView, FailureReason, Unplaced};

verus! {

/// The two slot lists have no slot in common.
pub open spec fn share_no_slot(x: Seq<u32>, y: Seq<u32>) -> bool {
    forall|i: int, j: int| 0 <= i < x.len() && 0 <= j < y.len() ==> x[i] != y[j]
}

/// Room `r` has a seat for every student of activity `a`.
pub open spec fn fits(acts: Seq<ActivityView>, rooms: Seq<RoomView>, a: int, r: int) -> bool {
    rooms[r].capacity >= acts[a].students_count
}

/// `m` gives activity `a` the room `m[a]`: every room exists and is large
/// enough, and two activities in one room share no slot.
pub open spec fn valid_assignment(
    acts: Seq<ActivityView>,
    rooms: Seq<RoomView>,
    m: Seq<int>,
) -> bool {
    &&& m.len() == acts.len()
    &&& forall|a: int|
        0 <= a < m.len() ==> 0 <= #[trigger] m[a] < rooms.len() && fits(acts, rooms, a, m[a])
    &&& forall|a: int, b: int|
        0 <= a < m.len() && 0 <= b < m.len() && a != b && #[trigger] m[a] == #[trigger] m[b]
            ==> share_no_slot(acts[a].time_slots, acts[b].time_slots)
}

/// Some room of the pool is large enough for activity `a`.
pub open spec fn some_room_fits(acts: Seq<ActivityView>, rooms: Seq<RoomView>, a: int) -> bool {
    exists|r: int| 0 <= r < rooms.len() && fits(acts, rooms, a, r)
}

/// One search problem: the activities in the order `ord` in which they are
/// placed, and the rooms in the order `rord` in which they are tried.
/// A partial placement `p` gives position `k` (activity `ord[k]`) the room
/// `p[k]`, or -1 when the position holds no room.
pub struct SearchSpace {
    pub acts: Seq<ActivityView>,
    pub rooms: Seq<RoomView>,
    pub ord: Seq<int>,
    pub rord: Seq<int>,
}

impl SearchSpace {
    pub open spec fn wf(self) -> bool {
        &&& forall|k: int| 0 <= k < self.ord.len() ==> 0 <= #[trigger] self.ord[k] < self.acts.len()
        &&& forall|c: int|
            0 <= c < self.rord.len() ==> 0 <= #[trigger] self.rord[c] < self.rooms.len()
        &&& forall|r: int| 0 <= r < self.rooms.len() ==> #[trigger] self.rord.contains(r)
    }

    pub open spec fn slots(self, k: int) -> Seq<u32> {
        self.acts[self.ord[k]].time_slots
    }

    /// Room `r` is free for the activity at position `k` given the rooms of
    /// the positions before `p.len()`.
    pub open spec fn free_for(self, p: Seq<int>, k: int, r: int) -> bool {
        forall|j: int|
            0 <= j < p.len() && #[trigger] p[j] == r ==> share_no_slot(self.slots(j), self.slots(k))
    }

    /// Room `r` may take the next position after `p`.
    pub open spec fn is_candidate(self, p: Seq<int>, r: int) -> bool {
        fits(self.acts, self.rooms, self.ord[p.len() as int], r) && self.free_for(p, p.len() as int, r)
    }

    /// `p` places its positions in existing, large enough rooms with no clash.
    pub open spec fn valid_placed(self, p: Seq<int>) -> bool {
        &&& p.len() <= self.ord.len()
        &&& forall|k: int|
            0 <= k < p.len() ==> 0 <= #[trigger] p[k] < self.rooms.len() && fits(
                self.acts,
                self.rooms,
                self.ord[k],
                p[k],
            )
        &&& forall|j: int, k: int|
            0 <= j < k < p.len() && #[trigger] p[j] == #[trigger] p[k] ==> share_no_slot(
                self.slots(j),
                self.slots(k),
            )
    }

    /// Depth-first search from `p`: the first complete placement that extends
    /// it, trying rooms in the order `rord` at each position.
    pub open spec fn search(self, p: Seq<int>) -> Option<Seq<int>>
        decreases self.ord.len() - p.len(), self.rord.len() + 1,
    {
        if p.len() >= self.ord.len() {
            Some(p)
        } else {
            self.try_rooms(p, 0)
        }
    }

    /// The search from `p` that tries only the rooms `rord[c..]` next.
    pub open spec fn try_rooms(self, p: Seq<int>, c: int) -> Option<Seq<int>>
        decreases self.ord.len() - p.len(), self.rord.len() - c,
    {
        if c < 0 || c >= self.rord.len() || p.len() >= self.ord.len() {
            None
        } else if self.is_candidate(p, self.rord[c]) {
            match self.search(p.push(self.rord[c])) {
                Some(x) => Some(x),
                None => self.try_rooms(p, c + 1),
            }
        } else {
            self.try_rooms(p, c + 1)
        }
    }

    /// The first room of `rord[c..]` that may take the next position after
    /// `p`, or -1.
    pub open spec fn first_fit(self, p: Seq<int>, c: int) -> int
        decreases self.rord.len() - c,
    {
        if c < 0 || c >= self.rord.len() {
            -1
        } else if self.is_candidate(p, self.rord[c]) {
            self.rord[c]
        } else {
            self.first_fit(p, c + 1)
        }
    }

    /// The greedy pass over the first `k` positions: each takes its first
    /// fitting free room, with no undoing, or stays unplaced (-1).
    pub open spec fn greedy(self, k: nat) -> Seq<int>
        decreases k,
    {
        if k == 0 {
            Seq::empty()
        } else {
            let g = self.greedy((k - 1) as nat);
            g.push(self.first_fit(g, 0))
        }
    }

    /// Why the activity at position `k` found no room.
    pub open spec fn reason(self, k: int) -> FailureReason {
        if some_room_fits(self.acts, self.rooms, self.ord[k]) {
            FailureReason::SlotConflictExhausted
        } else {
            FailureReason::CapacityExhausted
        }
    }

    /// The activities among the first `k` positions that the greedy pass
    /// leaves unplaced, in position order, each with its reason.
    pub open spec fn failures(self, k: nat) -> Seq<Unplaced>
        decreases k,
    {
        if k == 0 {
            Seq::empty()
        } else {
            let f = self.failures((k - 1) as nat);
            if self.greedy(k)[k - 1] >= 0 {
                f
            } else {
                f.push(
                    Unplaced {
                        activity_id: self.acts[self.ord[k - 1]].id,
                        reason: self.reason(k - 1),
                    },
                )
            }
        }
    }

    /// The slots claimed by the rooms that `p` gives out.
    pub open spec fn occupied(self, p: Seq<int>) -> Set<(usize, u32)> {
        Set::new(
            |c: (usize, u32)|
                exists|j: int|
                    0 <= j < p.len() && p[j] == c.0 as int && self.slots(j).contains(c.1),
        )
    }
    /// Pushing a candidate keeps a placement valid.
    pub proof fn lemma_push_valid(self, p: Seq<int>, r: int)
        requires
            self.wf(),
            self.valid_placed(p),
            p.len() < self.ord.len(),
            0 <= r < self.rooms.len(),
            self.is_candidate(p, r),
        ensures
            self.valid_placed(p.push(r)),
    {
        let q = p.push(r);
        assert forall|j: int, k: int|
            0 <= j < k < q.len() && #[trigger] q[j] == #[trigger] q[k] implies share_no_slot(
            self.slots(j),
            self.slots(k),
        ) by {
            if k == p.len() {
                assert(p[j] == r);
            } else {
                assert(p[j] == p[k]);
            }
        }
        assert forall|k: int| 0 <= k < q.len() implies 0 <= #[trigger] q[k] < self.rooms.len()
            && fits(self.acts, self.rooms, self.ord[k], q[k]) by {
            if k < p.len() {
                assert(q[k] == p[k]);
            }
        }
    }

    /// What the search returns is a complete valid placement.
    pub proof fn lemma_search_sound(self, p: Seq<int>)
        requires
            self.wf(),
            self.valid_placed(p),
        ensures
            self.search(p) is Some ==> self.valid_placed(self.search(p)->Some_0)
                && self.search(p)->Some_0.len() == self.ord.len(),
        decreases self.ord.len() - p.len(), self.rord.len() + 1,
    {
        if p.len() < self.ord.len() {
            self.lemma_try_sound(p, 0);
        }
    }

    pub proof fn lemma_try_sound(self, p: Seq<int>, c: int)
        requires
            self.wf(),
            self.valid_placed(p),
            c >= 0,
        ensures
            self.try_rooms(p, c) is Some ==> self.valid_placed(self.try_rooms(p, c)->Some_0)
                && self.try_rooms(p, c)->Some_0.len() == self.ord.len(),
        decreases self.ord.len() - p.len(), self.rord.len() - c,
    {
        if c < self.rord.len() && p.len() < self.ord.len() {
            let r = self.rord[c];
            if self.is_candidate(p, r) {
                self.lemma_push_valid(p, r);
                self.lemma_search_sound(p.push(r));
            }
            self.lemma_try_sound(p, c + 1);
        }
    }

    /// Where a complete valid placement `e` extends `p`, the search from `p`
    /// finds a placement.
    pub proof fn lemma_search_complete(self, p: Seq<int>, e: Seq<int>)
        requires
            self.wf(),
            self.valid_placed(e),
            e.len() == self.ord.len(),
            p.len() <= e.len(),
            p == e.take(p.len() as int),
        ensures
            self.search(p) is Some,
        decreases self.ord.len() - p.len(), self.rord.len() + 1,
    {
        if p.len() < self.ord.len() {
            let k = p.len() as int;
            assert(self.rord.contains(e[k]));
            let c0 = choose|c0: int| 0 <= c0 < self.rord.len() && self.rord[c0] == e[k];
            self.lemma_try_complete(p, e, 0, c0);
        }
    }

    pub proof fn lemma_try_complete(self, p: Seq<int>, e: Seq<int>, c: int, c0: int)
        requires
            self.wf(),
            self.valid_placed(e),
            e.len() == self.ord.len(),
            p.len() < e.len(),
            p == e.take(p.len() as int),
            0 <= c <= c0 < self.rord.len(),
            self.rord[c0] == e[p.len() as int],
        ensures
            self.try_rooms(p, c) is Some,
        decreases self.ord.len() - p.len(), self.rord.len() - c,
    {
        let k = p.len() as int;
        let r = self.rord[c];
        if c == c0 {
            assert forall|j: int| 0 <= j < p.len() && #[trigger] p[j] == r implies share_no_slot(
                self.slots(j),
                self.slots(k),
            ) by {
                assert(e[j] == p[j]);
            }
            assert(self.is_candidate(p, r));
            assert(p.push(r) == e.take(k + 1));
            self.lemma_search_complete(p.push(r), e);
        } else {
            if !(self.is_candidate(p, r) && self.search(p.push(r)) is Some) {
                self.lemma_try_complete(p, e, c + 1, c0);
            }
        }
    }

    /// `first_fit` gives a candidate, or -1 exactly when none remains.
    pub proof fn lemma_first_fit(self, p: Seq<int>, c: int)
        requires
            self.wf(),
            c >= 0,
        ensures
            self.first_fit(p, c) != -1 ==> 0 <= self.first_fit(p, c) < self.rooms.len()
                && self.is_candidate(p, self.first_fit(p, c)),
            self.first_fit(p, c) == -1 <==> forall|d: int|
                c <= d < self.rord.len() ==> !self.is_candidate(p, #[trigger] self.rord[d]),
        decreases self.rord.len() - c,
    {
        if c < self.rord.len() {
            self.lemma_first_fit(p, c + 1);
            if self.first_fit(p, c) == -1 {
                assert forall|d: int| c <= d < self.rord.len() implies !self.is_candidate(
                    p,
                    #[trigger] self.rord[d],
                ) by {
                    if d > c {
                    }
                }
            }
        }
    }

    /// The claims of `p` tell whether a room is free for the next position.
    pub proof fn lemma_occupied_free(self, p: Seq<int>, r: int)
        requires
            p.len() < self.ord.len(),
            0 <= r <= usize::MAX,
        ensures
            crate::conflict_index::is_free(self.occupied(p), r as usize, self.slots(p.len() as int))
                <==> self.free_for(p, p.len() as int, r),
    {
        let k = p.len() as int;
        let occ = self.occupied(p);
        let sk = self.slots(k);
        if crate::conflict_index::is_free(occ, r as usize, sk) {
            assert forall|j: int| 0 <= j < p.len() && #[trigger] p[j] == r implies share_no_slot(
                self.slots(j),
                sk,
            ) by {
                assert forall|x: int, y: int|
                    0 <= x < self.slots(j).len() && 0 <= y < sk.len() implies self.slots(j)[x]
                    != sk[y] by {
                    if self.slots(j)[x] == sk[y] {
                        assert(self.slots(j).contains(sk[y]));
                        assert(occ.contains((r as usize, sk[y])));
                    }
                }
            }
        }
        if self.free_for(p, k, r) {
            assert forall|i: int| 0 <= i < sk.len() implies !occ.contains(
                (r as usize, #[trigger] sk[i]),
            ) by {
                if occ.contains((r as usize, sk[i])) {
                    let j = choose|j: int|
                        0 <= j < p.len() && p[j] == r && self.slots(j).contains(sk[i]);
                    let x = choose|x: int| 0 <= x < self.slots(j).len() && self.slots(j)[x] == sk[i];
                    assert(share_no_slot(self.slots(j), sk));
                }
            }
        }
    }

    /// Placing the next position in room `r` claims its slots for `r`;
    /// leaving it unplaced claims nothing.
    pub proof fn lemma_occupied_push(self, p: Seq<int>, r: int)
        requires
            p.len() < self.ord.len(),
            -1 <= r <= usize::MAX,
        ensures
            r >= 0 ==> self.occupied(p.push(r)) == self.occupied(p).union(
                crate::conflict_index::claims_of(r as usize, self.slots(p.len() as int)),
            ),
            r == -1 ==> self.occupied(p.push(r)) == self.occupied(p),
    {
        let q = p.push(r);
        let k = p.len() as int;
        if r >= 0 {
            let rhs = self.occupied(p).union(
                crate::conflict_index::claims_of(r as usize, self.slots(k)),
            );
            assert forall|c: (usize, u32)| #[trigger] self.occupied(q).contains(c) == rhs.contains(c) by {
                if self.occupied(q).contains(c) {
                    let j = choose|j: int|
                        0 <= j < q.len() && q[j] == c.0 as int && self.slots(j).contains(c.1);
                    if j < k {
                        assert(p[j] == c.0 as int);
                    }
                }
                if self.occupied(p).contains(c) {
                    let j = choose|j: int|
                        0 <= j < p.len() && p[j] == c.0 as int && self.slots(j).contains(c.1);
                    assert(q[j] == p[j]);
                }
                if crate::conflict_index::claims_of(r as usize, self.slots(k)).contains(c) {
                    assert(q[k] == c.0 as int);
                }
            }
            assert(self.occupied(q) =~= rhs);
        } else {
            assert forall|c: (usize, u32)| #[trigger] self.occupied(q).contains(c) == self.occupied(
                p,
            ).contains(c) by {
                if self.occupied(q).contains(c) {
                    let j = choose|j: int|
                        0 <= j < q.len() && q[j] == c.0 as int && self.slots(j).contains(c.1);
                    assert(j < k);
                    assert(p[j] == c.0 as int);
                }
                if self.occupied(p).contains(c) {
                    let j = choose|j: int|
                        0 <= j < p.len() && p[j] == c.0 as int && self.slots(j).contains(c.1);
                    assert(q[j] == p[j]);
                }
            }
            assert(self.occupied(q) =~= self.occupied(p));
        }
    }
}

} // verus!
