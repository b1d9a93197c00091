//! The assignment engine: validates a request, searches for a placement of
//! every activity, and explains a failure.
use vstd::prelude::*;
use crate::models::{
    ActivitiesRequest, Activity, ActivityView, AssignmentError, ErrorView, FailureReason, Placement, RequestView, Room,
    RoomView, Unplaced, activity_views, room_views, string_views,
};
use crate::order::{
    activity_order, activity_precedes, as_ints, is_permutation, room_order, room_precedes,
    selection_order,
};
use crate::conflict_index::{ConflictIndex, claims_of};
use crate::search::{SearchSpace, fits};

verus! {

/// Room `r` is malformed: it has no seat, or an earlier room has its name.
pub open spec fn is_bad_room(rooms: Seq<RoomView>, r: int) -> bool {
    rooms[r].capacity == 0 || exists|q: int| 0 <= q < r && rooms[q].name == rooms[r].name
}

/// The names of the malformed rooms among the first `k`, in order.
pub open spec fn bad_room_names(rooms: Seq<RoomView>, k: nat) -> Seq<Seq<char>>
    decreases k,
{
    if k == 0 {
        Seq::empty()
    } else {
        let f = bad_room_names(rooms, (k - 1) as nat);
        if is_bad_room(rooms, k - 1) {
            f.push(rooms[k - 1].name)
        } else {
            f
        }
    }
}

/// Activity `i` cannot enter the search: it has no time slot, it needs no
/// student, or an earlier activity has its id.
pub open spec fn is_malformed(acts: Seq<ActivityView>, i: int) -> bool {
    ||| acts[i].time_slots.len() == 0
    ||| acts[i].students_count == 0
    ||| (exists|j: int| 0 <= j < i && acts[j].id == acts[i].id)
}

/// The malformed activities among the first `k`, in order.
pub open spec fn validation_failures(acts: Seq<ActivityView>, k: nat) -> Seq<Unplaced>
    decreases k,
{
    if k == 0 {
        Seq::empty()
    } else {
        let f = validation_failures(acts, (k - 1) as nat);
        if is_malformed(acts, k - 1) {
            f.push(Unplaced { activity_id: acts[k - 1].id, reason: FailureReason::ValidationError })
        } else {
            f
        }
    }
}

/// The search problem of a request: activities most constrained first,
/// rooms tightest first.
pub open spec fn space_of(req: RequestView) -> SearchSpace {
    SearchSpace {
        acts: req.activities,
        rooms: req.rooms,
        ord: selection_order(
            activity_precedes(req.activities),
            req.activities.len() as int,
            req.activities.len() as nat,
        ),
        rord: selection_order(
            room_precedes(req.rooms),
            req.rooms.len() as int,
            req.rooms.len() as nat,
        ),
    }
}

/// A placement in processing order, read back in the order of the activities.
pub open spec fn unpermute(ord: Seq<int>, x: Seq<int>) -> Seq<int> {
    Seq::new(ord.len(), |a: int| x[ord.index_of(a)])
}

/// The result of a run: the room index of every activity; or the malformed
/// rooms; or the malformed activities; or the activities that could not be
/// placed.
pub open spec fn outcome(req: RequestView) -> Result<Seq<int>, ErrorView> {
    let n = req.activities.len();
    let bad = bad_room_names(req.rooms, req.rooms.len());
    let invalid = validation_failures(req.activities, n);
    let sp = space_of(req);
    if bad.len() > 0 {
        Err(ErrorView::MalformedRooms(bad))
    } else if invalid.len() > 0 {
        Err(ErrorView::Unplaced(invalid))
    } else {
        match sp.search(Seq::empty()) {
            Some(x) => Ok(unpermute(sp.ord, x)),
            None => Err(ErrorView::Unplaced(sp.failures(n))),
        }
    }
}

/// The mapping of activity ids to room names that room indices `m` stand for.
pub open spec fn named(req: RequestView, m: Seq<int>) -> Seq<(u32, Seq<char>)> {
    Seq::new(m.len(), |a: int| (req.activities[a].id, req.rooms[m[a]].name))
}

/// The views of a list of placements.
pub open spec fn placement_views(ps: Seq<Placement>) -> Seq<(u32, Seq<char>)> {
    ps.map_values(|p: Placement| p@)
}

/// The names of the malformed rooms of `rooms`, in order.
fn validate_rooms(rooms: &Vec<Room>) -> (r: Vec<String>)
    ensures
        string_views(r@) == bad_room_names(room_views(rooms@), rooms@.len() as nat),
{
    let ghost rv = room_views(rooms@);
    let mut r: Vec<String> = Vec::new();
    let mut i: usize = 0;
    while i < rooms.len()
        invariant
            i <= rooms@.len(),
            rv == room_views(rooms@),
            string_views(r@) == bad_room_names(rv, i as nat),
        decreases rooms.len() - i,
    {
        let mut repeated = false;
        let mut j: usize = 0;
        while j < i
            invariant
                j <= i < rooms@.len(),
                rv == room_views(rooms@),
                repeated == exists|t: int| 0 <= t < j && rv[t].name == rv[i as int].name,
            decreases i - j,
        {
            assert(rv[j as int] == rooms@[j as int]@ && rv[i as int] == rooms@[i as int]@);
            if rooms[j].name == rooms[i].name {
                repeated = true;
            }
            j += 1;
            assert(forall|t: int| 0 <= t < j ==> (#[trigger] rv[t].name == rv[i as int].name) == ((
            t < j - 1 && rv[t].name == rv[i as int].name) || (t == j - 1 && rv[t].name == rv[
                i as int].name)));
        }
        assert(rv[i as int] == rooms@[i as int]@);
        if rooms[i].capacity == 0 || repeated {
            let ghost before = r@;
            r.push(rooms[i].name.clone());
            assert(string_views(r@) =~= string_views(before).push(rv[i as int].name));
        }
        i += 1;
    }
    r
}

/// The malformed activities of `acts`, each as a validation error.
fn validate(acts: &Vec<Activity>) -> (r: Vec<Unplaced>)
    ensures
        r@ == validation_failures(activity_views(acts@), acts@.len() as nat),
{
    let ghost av = activity_views(acts@);
    let mut r: Vec<Unplaced> = Vec::new();
    let mut i: usize = 0;
    while i < acts.len()
        invariant
            i <= acts@.len(),
            av == activity_views(acts@),
            r@ == validation_failures(av, i as nat),
        decreases acts.len() - i,
    {
        let mut repeated = false;
        let mut j: usize = 0;
        while j < i
            invariant
                j <= i < acts@.len(),
                av == activity_views(acts@),
                repeated == exists|t: int| 0 <= t < j && av[t].id == av[i as int].id,
            decreases i - j,
        {
            assert(av[j as int] == acts@[j as int]@ && av[i as int] == acts@[i as int]@);
            if acts[j].id == acts[i].id {
                repeated = true;
            }
            j += 1;
            assert(forall|t: int| 0 <= t < j ==> (#[trigger] av[t].id == av[i as int].id) == ((
            t < j - 1 && av[t].id == av[i as int].id) || (t == j - 1 && av[t].id == av[i as int].id)));
        }
        assert(av[i as int] == acts@[i as int]@);
        if acts[i].time_slots.len() == 0 || acts[i].students_count == 0 || repeated {
            r.push(Unplaced { activity_id: acts[i].id, reason: FailureReason::ValidationError });
        }
        i += 1;
    }
    r
}

/// The search problem over the given lists and orders.
pub open spec fn space_for(
    acts: Seq<Activity>,
    rooms: Seq<Room>,
    ord: Seq<usize>,
    rord: Seq<usize>,
) -> SearchSpace {
    SearchSpace {
        acts: activity_views(acts),
        rooms: room_views(rooms),
        ord: as_ints(ord),
        rord: as_ints(rord),
    }
}

/// Claims in `index` that are free for `slots` in `room`, once committed and
/// then released, leave `index` as it was.
proof fn lemma_release_undoes_commit(x: Set<(usize, u32)>, room: usize, slots: Seq<u32>)
    requires
        crate::conflict_index::is_free(x, room, slots),
    ensures
        x.union(claims_of(room, slots)).difference(claims_of(room, slots)) == x,
        crate::conflict_index::is_held(x.union(claims_of(room, slots)), room, slots),
{
    assert forall|c: (usize, u32)| x.contains(c) implies !claims_of(room, slots).contains(c) by {
        if claims_of(room, slots).contains(c) {
            let i = choose|i: int| 0 <= i < slots.len() && slots[i] == c.1;
            assert(!x.contains((room, slots[i])));
        }
    }
    assert(x.union(claims_of(room, slots)).difference(claims_of(room, slots)) =~= x);
    assert forall|i: int| 0 <= i < slots.len() implies x.union(claims_of(room, slots)).contains(
        (room, #[trigger] slots[i]),
    ) by {
        assert(claims_of(room, slots).contains((room, slots[i])));
    }
}

/// Depth-first search from the partial placement `placed`, with `index`
/// holding its claims. On success `placed` is complete; on failure both are
/// left as they were.
fn place_from(
    acts: &Vec<Activity>,
    rooms: &Vec<Room>,
    ord: &Vec<usize>,
    rord: &Vec<usize>,
    index: &mut ConflictIndex,
    placed: &mut Vec<usize>,
) -> (found: bool)
    requires
        space_for(acts@, rooms@, ord@, rord@).wf(),
        old(placed)@.len() <= ord@.len(),
        old(index)@ == space_for(acts@, rooms@, ord@, rord@).occupied(as_ints(old(placed)@)),
    ensures
        found == space_for(acts@, rooms@, ord@, rord@).search(as_ints(old(placed)@)) is Some,
        found ==> as_ints(final(placed)@) == space_for(acts@, rooms@, ord@, rord@).search(
            as_ints(old(placed)@),
        )->Some_0,
        !found ==> final(placed)@ == old(placed)@ && final(index)@ == old(index)@,
    decreases ord@.len() - old(placed)@.len(),
{
    let ghost sp = space_for(acts@, rooms@, ord@, rord@);
    let ghost start = as_ints(placed@);
    let k = placed.len();
    if k >= ord.len() {
        return true;
    }
    let a = ord[k];
    assert(sp.ord[k as int] == a as int);
    assert(sp.acts[a as int] == acts@[a as int]@);
    let mut c: usize = 0;
    while c < rord.len()
        invariant
            sp == space_for(acts@, rooms@, ord@, rord@),
            sp.wf(),
            start == as_ints(old(placed)@),
            placed@ == old(placed)@,
            index@ == old(index)@,
            old(index)@ == sp.occupied(start),
            k == placed@.len(),
            k < ord@.len(),
            a == ord@[k as int],
            sp.acts[a as int] == acts@[a as int]@,
            c <= rord@.len(),
            sp.search(start) == sp.try_rooms(start, c as int),
        decreases rord.len() - c,
    {
        let r = rord[c];
        assert(sp.rord[c as int] == r as int);
        assert(sp.rooms[r as int] == rooms@[r as int]@);
        proof {
            sp.lemma_occupied_free(start, r as int);
        }
        if rooms[r].capacity >= acts[a].students_count && index.is_available(r, &acts[a].time_slots) {
            assert(sp.is_candidate(start, r as int));
            let ghost before = index@;
            let _ = index.commit(r, &acts[a].time_slots);
            proof {
                sp.lemma_occupied_push(start, r as int);
            }
            placed.push(r);
            assert(as_ints(placed@) == start.push(r as int));
            if place_from(acts, rooms, ord, rord, index, placed) {
                return true;
            }
            placed.pop();
            assert(placed@ == old(placed)@);
            proof {
                lemma_release_undoes_commit(before, r, acts@[a as int].time_slots@);
            }
            let _ = index.release(r, &acts[a].time_slots);
        }
        c += 1;
    }
    false
}

/// The greedy pass over the processing order, reporting each activity that
/// finds no fitting free room.
fn diagnose(acts: &Vec<Activity>, rooms: &Vec<Room>, ord: &Vec<usize>, rord: &Vec<usize>) -> (r: Vec<
    Unplaced,
>)
    requires
        space_for(acts@, rooms@, ord@, rord@).wf(),
    ensures
        r@ == space_for(acts@, rooms@, ord@, rord@).failures(ord@.len() as nat),
{
    let ghost sp = space_for(acts@, rooms@, ord@, rord@);
    let mut index = ConflictIndex::new();
    let mut out: Vec<Unplaced> = Vec::new();
    let ghost mut g: Seq<int> = Seq::empty();
    assert(index@ =~= sp.occupied(g));
    let mut k: usize = 0;
    while k < ord.len()
        invariant
            sp == space_for(acts@, rooms@, ord@, rord@),
            sp.wf(),
            k <= ord@.len(),
            g == sp.greedy(k as nat),
            g.len() == k,
            index@ == sp.occupied(g),
            out@ == sp.failures(k as nat),
        decreases ord.len() - k,
    {
        let a = ord[k];
        assert(sp.ord[k as int] == a as int);
        assert(sp.acts[a as int] == acts@[a as int]@);
        let n_rooms = rooms.len();
        let mut chosen: usize = n_rooms;
        let mut c: usize = 0;
        while c < rord.len() && chosen == n_rooms
            invariant
                sp == space_for(acts@, rooms@, ord@, rord@),
                sp.wf(),
                g.len() == k,
                k < ord@.len(),
                a == ord@[k as int],
                sp.acts[a as int] == acts@[a as int]@,
                index@ == sp.occupied(g),
                n_rooms == rooms@.len(),
                c <= rord@.len(),
                chosen == n_rooms ==> sp.first_fit(g, 0) == sp.first_fit(g, c as int),
                chosen < n_rooms ==> sp.first_fit(g, 0) == chosen as int,
                chosen <= n_rooms,
            decreases rord.len() - c,
        {
            let r = rord[c];
            assert(sp.rord[c as int] == r as int);
            assert(sp.rooms[r as int] == rooms@[r as int]@);
            proof {
                sp.lemma_occupied_free(g, r as int);
            }
            if rooms[r].capacity >= acts[a].students_count && index.is_available(
                r,
                &acts[a].time_slots,
            ) {
                chosen = r;
            }
            c += 1;
        }
        proof {
            sp.lemma_first_fit(g, 0);
        }
        if chosen < n_rooms {
            let _ = index.commit(chosen, &acts[a].time_slots);
            proof {
                sp.lemma_occupied_push(g, chosen as int);
                g = g.push(chosen as int);
            }
        } else {
            let mut any_fits = false;
            let mut t: usize = 0;
            while t < rooms.len()
                invariant
                    sp == space_for(acts@, rooms@, ord@, rord@),
                    a < acts@.len(),
                    sp.acts[a as int] == acts@[a as int]@,
                    t <= rooms@.len(),
                    any_fits == exists|q: int| 0 <= q < t && fits(sp.acts, sp.rooms, a as int, q),
                decreases rooms.len() - t,
            {
                assert(sp.rooms[t as int] == rooms@[t as int]@);
                if rooms[t].capacity >= acts[a].students_count {
                    any_fits = true;
                    assert(fits(sp.acts, sp.rooms, a as int, t as int));
                } else {
                    assert(!fits(sp.acts, sp.rooms, a as int, t as int));
                }
                t += 1;
            }
            let reason = if any_fits {
                FailureReason::SlotConflictExhausted
            } else {
                FailureReason::CapacityExhausted
            };
            out.push(Unplaced { activity_id: acts[a].id, reason });
            proof {
                sp.lemma_occupied_push(g, -1);
                g = g.push(-1);
            }
        }
        k += 1;
    }
    out
}

/// Assigns a room to every activity of `request`, or reports the activities
/// that cannot be placed.
///
/// A malformed room pool (a room without seats, or a room name used before)
/// fails the run first, with the names of those rooms, whatever the
/// activities are. Then malformed activities (no time slot, no student, or an
/// id used before) are reported, each as a validation error. In both cases
/// nothing is searched. Otherwise
/// activities are taken most constrained first (more slots, then more
/// students, then smaller id) and rooms tightest first (fewer seats), with
/// chronological backtracking. On success the mapping lists each activity, in
/// request order, with the name of its room. On failure each activity that a
/// greedy pass in the same orders cannot place is reported with its reason.
pub fn assign_rooms(request: &ActivitiesRequest) -> (r: Result<Vec<Placement>, AssignmentError>)
    ensures
        r is Ok <==> outcome(request@) is Ok,
        r is Ok ==> placement_views(r->Ok_0@) == named(request@, outcome(request@)->Ok_0),
        r is Err ==> r->Err_0@ == outcome(request@)->Err_0,
{
    let acts = &request.activities;
    let rooms = &request.rooms;
    let bad = validate_rooms(rooms);
    if bad.len() > 0 {
        return Err(AssignmentError::MalformedRooms(bad));
    }
    let invalid = validate(acts);
    if invalid.len() > 0 {
        return Err(AssignmentError::Unplaced(invalid));
    }
    let ord = activity_order(acts);
    let rord = room_order(rooms);
    let ghost sp = space_for(acts@, rooms@, ord@, rord@);
    assert(sp == space_of(request@));
    let mut index = ConflictIndex::new();
    let mut placed: Vec<usize> = Vec::new();
    assert(as_ints(placed@) =~= Seq::<int>::empty());
    assert(index@ =~= sp.occupied(Seq::empty()));
    if !place_from(acts, rooms, &ord, &rord, &mut index, &mut placed) {
        return Err(AssignmentError::Unplaced(diagnose(acts, rooms, &ord, &rord)));
    }
    let ghost x = as_ints(placed@);
    let ghost m = unpermute(sp.ord, x);
    proof {
        sp.lemma_search_sound(Seq::empty());
    }
    let n = acts.len();
    let mut ps: Vec<Placement> = Vec::new();
    let mut a: usize = 0;
    while a < n
        invariant
            sp == space_for(acts@, rooms@, ord@, rord@),
            sp == space_of(request@),
            acts == &request.activities,
            rooms == &request.rooms,
            n == acts@.len(),
            is_permutation(sp.ord, n as int),
            sp.valid_placed(x),
            x.len() == n,
            x == as_ints(placed@),
            m == unpermute(sp.ord, x),
            a <= n,
            ps@.len() == a,
            forall|i: int| 0 <= i < a ==> (#[trigger] ps@[i])@ == named(request@, m)[i],
        decreases n - a,
    {
        let mut k: usize = 0;
        while k < n && ord[k] != a
            invariant
                sp == space_for(acts@, rooms@, ord@, rord@),
                n == acts@.len(),
                ord@.len() == n,
                k <= n,
                forall|t: int| 0 <= t < k ==> sp.ord[t] != a,
            decreases n - k,
        {
            k += 1;
        }
        assert(sp.ord.contains(a as int));
        assert(k < n) by {
            if k == n {
                let w = choose|w: int| 0 <= w < n && sp.ord[w] == a as int;
                assert(sp.ord[w] != a);
            }
        }
        assert(sp.ord[k as int] == a as int);
        let ghost j = sp.ord.index_of(a as int);
        assert(sp.ord[j] == a as int);
        assert(j == k as int);
        let r = placed[k];
        assert(x[k as int] == r as int);
        assert(m[a as int] == r as int);
        assert(request@.rooms[r as int] == rooms@[r as int]@);
        assert(request@.activities[a as int] == acts@[a as int]@);
        ps.push(Placement { activity_id: acts[a].id, room_name: rooms[r].name.clone() });
        a += 1;
    }
    assert(placement_views(ps@) =~= named(request@, m));
    Ok(ps)
}

} // verus!
