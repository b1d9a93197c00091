//! Properties of the assignment outcome, proved over the model.
use vstd::prelude::*;
use crate::models::{ActivitiesRequest, ErrorView, FailureReason, RequestView, Unplaced};
use crate::order::{
    activity_precedes, is_permutation, lemma_selection_is_permutation, room_precedes,
};
use crate::search::{SearchSpace, fits, share_no_slot, some_room_fits, valid_assignment};
use crate::engine::{
    bad_room_names, is_bad_room, is_malformed, outcome, space_of, unpermute, validation_failures,
};

verus! {

/// No room and no activity of the request is malformed.
pub open spec fn well_formed(req: RequestView) -> bool {
    &&& forall|r: int| 0 <= r < req.rooms.len() ==> !is_bad_room(req.rooms, r)
    &&& forall|i: int| 0 <= i < req.activities.len() ==> !is_malformed(req.activities, i)
}

proof fn lemma_rooms_empty(rooms: Seq<crate::models::RoomView>, k: nat)
    requires
        k <= rooms.len(),
    ensures
        bad_room_names(rooms, k).len() == 0 <==> forall|r: int|
            0 <= r < k ==> !is_bad_room(rooms, r),
    decreases k,
{
    if k > 0 {
        lemma_rooms_empty(rooms, (k - 1) as nat);
        if bad_room_names(rooms, k).len() == 0 {
            assert forall|r: int| 0 <= r < k implies !is_bad_room(rooms, r) by {
                if r < k - 1 {
                }
            }
        }
    }
}

proof fn lemma_validation_empty(acts: Seq<crate::models::ActivityView>, k: nat)
    requires
        k <= acts.len(),
    ensures
        validation_failures(acts, k).len() == 0 <==> forall|i: int|
            0 <= i < k ==> !is_malformed(acts, i),
    decreases k,
{
    if k > 0 {
        lemma_validation_empty(acts, (k - 1) as nat);
        if validation_failures(acts, k).len() == 0 {
            assert forall|i: int| 0 <= i < k implies !is_malformed(acts, i) by {
                if i < k - 1 {
                }
            }
        }
    }
}

proof fn lemma_space(req: RequestView)
    ensures
        space_of(req).wf(),
        is_permutation(space_of(req).ord, req.activities.len() as int),
        is_permutation(space_of(req).rord, req.rooms.len() as int),
{
    lemma_selection_is_permutation(activity_precedes(req.activities), req.activities.len());
    lemma_selection_is_permutation(room_precedes(req.rooms), req.rooms.len());
}

/// A complete valid placement in processing order is a valid assignment.
proof fn lemma_unpermute_valid(sp: SearchSpace, x: Seq<int>)
    requires
        is_permutation(sp.ord, sp.acts.len() as int),
        sp.valid_placed(x),
        x.len() == sp.ord.len(),
    ensures
        valid_assignment(sp.acts, sp.rooms, unpermute(sp.ord, x)),
{
    let m = unpermute(sp.ord, x);
    let n = sp.acts.len() as int;
    assert forall|a: int| 0 <= a < n implies sp.ord[sp.ord.index_of(a)] == a && 0 <= sp.ord.index_of(a) < n by {
        assert(sp.ord.contains(a));
    }
    assert forall|a: int, b: int|
        0 <= a < m.len() && 0 <= b < m.len() && a != b && #[trigger] m[a] == #[trigger] m[b]
        implies share_no_slot(sp.acts[a].time_slots, sp.acts[b].time_slots) by {
        let i = sp.ord.index_of(a);
        let j = sp.ord.index_of(b);
        if i < j {
            assert(x[i] == x[j]);
        } else {
            assert(x[j] == x[i]);
            assert(share_no_slot(sp.slots(j), sp.slots(i)));
            assert forall|p: int, q: int|
                0 <= p < sp.slots(i).len() && 0 <= q < sp.slots(j).len() implies sp.slots(i)[p]
                != sp.slots(j)[q] by {
                assert(sp.slots(j)[q] != sp.slots(i)[p]);
            }
        }
    }
    assert forall|a: int| 0 <= a < m.len() implies 0 <= #[trigger] m[a] < sp.rooms.len() && fits(
        sp.acts,
        sp.rooms,
        a,
        m[a],
    ) by {
        let i = sp.ord.index_of(a);
        assert(x[i] == m[a]);
    }
}

/// A valid assignment, read in processing order, is a complete valid placement.
proof fn lemma_permute_valid(sp: SearchSpace, m: Seq<int>) -> (e: Seq<int>)
    requires
        is_permutation(sp.ord, sp.acts.len() as int),
        valid_assignment(sp.acts, sp.rooms, m),
    ensures
        sp.valid_placed(e),
        e.len() == sp.ord.len(),
{
    let e = Seq::new(sp.ord.len(), |k: int| m[sp.ord[k]]);
    assert forall|j: int, k: int|
        0 <= j < k < e.len() && #[trigger] e[j] == #[trigger] e[k] implies share_no_slot(
        sp.slots(j),
        sp.slots(k),
    ) by {
        assert(m[sp.ord[j]] == m[sp.ord[k]]);
        assert(sp.ord[j] != sp.ord[k]);
    }
    assert forall|k: int| 0 <= k < e.len() implies 0 <= #[trigger] e[k] < sp.rooms.len() && fits(
        sp.acts,
        sp.rooms,
        sp.ord[k],
        e[k],
    ) by {
        assert(m[sp.ord[k]] == e[k]);
    }
    e
}

/// Every successful result is valid: each activity gets an existing room
/// with enough seats, and two activities given the same room share no time
/// slot.
pub proof fn lemma_success_is_valid(req: RequestView)
    requires
        outcome(req) is Ok,
    ensures
        valid_assignment(req.activities, req.rooms, outcome(req)->Ok_0),
{
    let sp = space_of(req);
    lemma_space(req);
    sp.lemma_search_sound(Seq::empty());
    lemma_unpermute_valid(sp, sp.search(Seq::empty())->Some_0);
}

/// The run succeeds exactly when no activity is malformed and some valid
/// assignment of rooms to all activities exists.
pub proof fn lemma_success_iff_feasible(req: RequestView)
    ensures
        outcome(req) is Ok <==> well_formed(req) && exists|m: Seq<int>|
            valid_assignment(req.activities, req.rooms, m),
{
    let sp = space_of(req);
    lemma_space(req);
    lemma_validation_empty(req.activities, req.activities.len());
    lemma_rooms_empty(req.rooms, req.rooms.len());
    if outcome(req) is Ok {
        lemma_success_is_valid(req);
    }
    if well_formed(req) && exists|m: Seq<int>| valid_assignment(req.activities, req.rooms, m) {
        let m = choose|m: Seq<int>| valid_assignment(req.activities, req.rooms, m);
        let e = lemma_permute_valid(sp, m);
        assert(Seq::<int>::empty() =~= e.take(0));
        sp.lemma_search_complete(Seq::empty(), e);
    }
}

/// When every room seats every activity and no two activities share a time
/// slot, a well-formed request with at least as many rooms as activities
/// always succeeds.
pub proof fn lemma_disjoint_slots_succeed(req: RequestView)
    requires
        well_formed(req),
        req.rooms.len() >= req.activities.len(),
        forall|a: int, r: int|
            0 <= a < req.activities.len() && 0 <= r < req.rooms.len() ==> fits(
                req.activities,
                req.rooms,
                a,
                r,
            ),
        forall|a: int, b: int|
            0 <= a < req.activities.len() && 0 <= b < req.activities.len() && a != b
                ==> share_no_slot(req.activities[a].time_slots, req.activities[b].time_slots),
    ensures
        outcome(req) is Ok,
{
    let m = Seq::new(req.activities.len(), |a: int| 0int);
    assert(valid_assignment(req.activities, req.rooms, m));
    lemma_success_iff_feasible(req);
}

/// Two requests with the same content get the same outcome.
pub proof fn lemma_deterministic(x: ActivitiesRequest, y: ActivitiesRequest)
    requires
        x@ == y@,
    ensures
        outcome(x@) == outcome(y@),
{
}

proof fn lemma_greedy_len(sp: SearchSpace, k: nat)
    ensures
        sp.greedy(k).len() == k,
    decreases k,
{
    if k > 0 {
        lemma_greedy_len(sp, (k - 1) as nat);
    }
}

proof fn lemma_greedy_stable(sp: SearchSpace, k: int, n: nat)
    requires
        0 <= k < n,
    ensures
        sp.greedy(n)[k] == sp.greedy((k + 1) as nat)[k],
    decreases n,
{
    lemma_greedy_len(sp, (n - 1) as nat);
    if k < n - 1 {
        lemma_greedy_stable(sp, k, (n - 1) as nat);
    }
}

/// Each position that the greedy pass leaves unplaced is reported.
proof fn lemma_failure_reported(sp: SearchSpace, k: int, n: nat)
    requires
        0 <= k < n,
        sp.greedy(n)[k] == -1,
    ensures
        sp.failures(n).contains(
            Unplaced { activity_id: sp.acts[sp.ord[k]].id, reason: sp.reason(k) },
        ),
    decreases n,
{
    let u = Unplaced { activity_id: sp.acts[sp.ord[k]].id, reason: sp.reason(k) };
    lemma_greedy_len(sp, (n - 1) as nat);
    lemma_greedy_stable(sp, k, n);
    if k == n - 1 {
        let f = sp.failures((n - 1) as nat);
        assert(sp.failures(n) == f.push(u));
        assert(f.push(u)[f.len() as int] == u);
    } else {
        lemma_greedy_stable(sp, k, (n - 1) as nat);
        lemma_failure_reported(sp, k, (n - 1) as nat);
        let f = sp.failures((n - 1) as nat);
        let w = choose|w: int| 0 <= w < f.len() && f[w] == u;
        if sp.greedy(n)[n - 1] < 0 {
            assert(sp.failures(n)[w] == u);
        }
    }
}

/// An activity that no room can seat makes the run fail, and it is
/// reported as short of capacity.
pub proof fn lemma_too_large_is_reported(req: RequestView, i: int)
    requires
        well_formed(req),
        0 <= i < req.activities.len(),
        forall|r: int|
            0 <= r < req.rooms.len() ==> req.rooms[r].capacity < req.activities[i].students_count,
    ensures
        outcome(req) is Err,
        outcome(req)->Err_0 is Unplaced,
        outcome(req)->Err_0->Unplaced_0.contains(
            Unplaced { activity_id: req.activities[i].id, reason: FailureReason::CapacityExhausted },
        ),
{
    let sp = space_of(req);
    let n = req.activities.len();
    lemma_space(req);
    lemma_validation_empty(req.activities, n);
    lemma_rooms_empty(req.rooms, req.rooms.len());
    lemma_success_iff_feasible(req);
    if exists|m: Seq<int>| valid_assignment(req.activities, req.rooms, m) {
        let m = choose|m: Seq<int>| valid_assignment(req.activities, req.rooms, m);
        assert(fits(req.activities, req.rooms, i, m[i]));
    }
    assert(sp.ord.contains(i));
    let k = choose|k: int| 0 <= k < n && sp.ord[k] == i;
    lemma_greedy_len(sp, k as nat);
    let g = sp.greedy(k as nat);
    sp.lemma_first_fit(g, 0);
    assert(sp.first_fit(g, 0) == -1);
    assert(sp.greedy((k + 1) as nat)[k] == -1);
    lemma_greedy_stable(sp, k, n);
    lemma_failure_reported(sp, k, n);
}

/// An activity needing exactly as many seats as a room has can be placed in
/// it: alone in a well-formed request, it always succeeds there.
pub proof fn lemma_exact_capacity_fits(req: RequestView, r: int)
    requires
        well_formed(req),
        req.activities.len() == 1,
        0 <= r < req.rooms.len(),
        req.rooms[r].capacity == req.activities[0].students_count,
    ensures
        outcome(req) is Ok,
{
    let m = seq![r];
    assert(valid_assignment(req.activities, req.rooms, m));
    lemma_success_iff_feasible(req);
}

/// Two well-formed activities needing the same time slots, with a single
/// room able to seat either and no other room able to seat either: exactly
/// one of them is reported, as a slot conflict.
pub proof fn lemma_same_slots_one_room(req: RequestView, r0: int)
    requires
        well_formed(req),
        req.activities.len() == 2,
        req.activities[0].time_slots.to_set() == req.activities[1].time_slots.to_set(),
        0 <= r0 < req.rooms.len(),
        fits(req.activities, req.rooms, 0, r0),
        fits(req.activities, req.rooms, 1, r0),
        forall|r: int|
            0 <= r < req.rooms.len() && r != r0 ==> !fits(req.activities, req.rooms, 0, r) && !fits(
                req.activities,
                req.rooms,
                1,
                r,
            ),
    ensures
        outcome(req) is Err,
        outcome(req)->Err_0 is Unplaced,
        outcome(req)->Err_0->Unplaced_0.len() == 1,
        outcome(req)->Err_0->Unplaced_0[0].reason == FailureReason::SlotConflictExhausted,
        outcome(req)->Err_0->Unplaced_0[0].activity_id == req.activities[0].id || outcome(
            req,
        )->Err_0->Unplaced_0[0].activity_id == req.activities[1].id,
{
    let acts = req.activities;
    let sp = space_of(req);
    lemma_space(req);
    lemma_validation_empty(acts, 2);
    lemma_rooms_empty(req.rooms, req.rooms.len());
    lemma_success_iff_feasible(req);
    let s0 = acts[0].time_slots;
    let s1 = acts[1].time_slots;
    assert(!is_malformed(acts, 0));
    assert(s0.to_set().contains(s0[0]));
    assert(s1.contains(s0[0]));
    let q = choose|q: int| 0 <= q < s1.len() && s1[q] == s0[0];
    assert(!share_no_slot(s0, s1));
    assert(!share_no_slot(s1, s0)) by {
        assert(s1[q] == s0[0]);
    }
    if exists|m: Seq<int>| valid_assignment(acts, req.rooms, m) {
        let m = choose|m: Seq<int>| valid_assignment(acts, req.rooms, m);
        assert(fits(acts, req.rooms, 0, m[0]));
        assert(fits(acts, req.rooms, 1, m[1]));
        assert(m[0] == m[1]);
    }
    // the first position takes the only room that seats it
    let g1 = sp.greedy(1);
    assert(sp.greedy(0) =~= Seq::<int>::empty());
    assert(g1 == seq![sp.first_fit(Seq::empty(), 0)]);
    sp.lemma_first_fit(Seq::empty(), 0);
    assert(sp.rord.contains(r0));
    let c0 = choose|c0: int| 0 <= c0 < sp.rord.len() && sp.rord[c0] == r0;
    assert(sp.ord[0] == 0 || sp.ord[0] == 1);
    assert(sp.is_candidate(Seq::empty(), sp.rord[c0]));
    let r1 = sp.first_fit(Seq::empty(), 0);
    assert(r1 == r0);
    // the second position finds that room taken
    sp.lemma_first_fit(g1, 0);
    assert(sp.ord[1] == 0 || sp.ord[1] == 1);
    assert(sp.ord[0] != sp.ord[1]);
    assert forall|d: int| 0 <= d < sp.rord.len() implies !sp.is_candidate(g1, #[trigger] sp.rord[d]) by {
        if sp.is_candidate(g1, sp.rord[d]) {
            assert(sp.rord[d] == r0);
            assert(g1[0] == r0);
            assert(share_no_slot(sp.slots(0), sp.slots(1)));
        }
    }
    assert(sp.first_fit(g1, 0) == -1);
    assert(sp.greedy(2) == g1.push(-1));
    assert(sp.failures(1) == sp.failures(0));
    assert(some_room_fits(acts, req.rooms, sp.ord[1]));
}

proof fn lemma_greedy_valid(sp: SearchSpace, k: nat)
    requires
        sp.wf(),
        k <= sp.ord.len(),
        forall|j: int| 0 <= j < k ==> #[trigger] sp.greedy(k)[j] >= 0,
    ensures
        sp.valid_placed(sp.greedy(k)),
    decreases k,
{
    lemma_greedy_len(sp, k);
    if k > 0 {
        let g = sp.greedy((k - 1) as nat);
        lemma_greedy_len(sp, (k - 1) as nat);
        assert forall|j: int| 0 <= j < k - 1 implies #[trigger] g[j] >= 0 by {
            assert(sp.greedy(k)[j] == g[j]);
        }
        lemma_greedy_valid(sp, (k - 1) as nat);
        sp.lemma_first_fit(g, 0);
        assert(sp.greedy(k)[k - 1] == sp.first_fit(g, 0));
        sp.lemma_push_valid(g, sp.first_fit(g, 0));
    }
}

proof fn lemma_no_failures_all_placed(sp: SearchSpace, k: nat)
    requires
        sp.failures(k).len() == 0,
    ensures
        forall|j: int| 0 <= j < k ==> #[trigger] sp.greedy(k)[j] >= 0,
    decreases k,
{
    lemma_greedy_len(sp, k);
    if k > 0 {
        let g = sp.greedy((k - 1) as nat);
        lemma_greedy_len(sp, (k - 1) as nat);
        lemma_no_failures_all_placed(sp, (k - 1) as nat);
        assert forall|j: int| 0 <= j < k implies #[trigger] sp.greedy(k)[j] >= 0 by {
            if j < k - 1 {
                assert(sp.greedy(k)[j] == g[j]);
            }
        }
    }
}

/// A failed run always names at least one room or one activity.
pub proof fn lemma_failure_is_reported(req: RequestView)
    requires
        outcome(req) is Err,
    ensures
        match outcome(req)->Err_0 {
            ErrorView::MalformedRooms(names) => names.len() > 0,
            ErrorView::Unplaced(u) => u.len() > 0,
        },
{
    let sp = space_of(req);
    let n = req.activities.len();
    lemma_space(req);
    if bad_room_names(req.rooms, req.rooms.len()).len() == 0 && validation_failures(req.activities, n).len()
        == 0 && sp.failures(n).len() == 0 {
        lemma_no_failures_all_placed(sp, n);
        lemma_greedy_valid(sp, n);
        lemma_greedy_len(sp, n);
        assert(Seq::<int>::empty() =~= sp.greedy(n).take(0));
        sp.lemma_search_complete(Seq::empty(), sp.greedy(n));
    }
}

proof fn lemma_bad_room_listed(rooms: Seq<crate::models::RoomView>, r: int, k: nat)
    requires
        0 <= r < k <= rooms.len(),
        is_bad_room(rooms, r),
    ensures
        bad_room_names(rooms, k).contains(rooms[r].name),
    decreases k,
{
    let f = bad_room_names(rooms, (k - 1) as nat);
    if r == k - 1 {
        assert(bad_room_names(rooms, k) == f.push(rooms[r].name));
        assert(f.push(rooms[r].name)[f.len() as int] == rooms[r].name);
    } else {
        lemma_bad_room_listed(rooms, r, (k - 1) as nat);
        let w = choose|w: int| 0 <= w < f.len() && f[w] == rooms[r].name;
        if is_bad_room(rooms, k - 1) {
            assert(bad_room_names(rooms, k)[w] == rooms[r].name);
        }
    }
}

/// A room without seats fails the run as a malformed pool, whatever the
/// activities are, and the failure names that room.
pub proof fn lemma_seatless_room_rejected(req: RequestView, r: int)
    requires
        0 <= r < req.rooms.len(),
        req.rooms[r].capacity == 0,
    ensures
        outcome(req) is Err,
        outcome(req)->Err_0 is MalformedRooms,
        outcome(req)->Err_0->MalformedRooms_0.contains(req.rooms[r].name),
{
    lemma_bad_room_listed(req.rooms, r, req.rooms.len());
}

} // verus!
