//! Deterministic processing orders: activities from most to least
//! constrained, rooms from tightest to largest.
use vstd::prelude::*;
use vstd::set_lib::{set_int_range, lemma_int_range, lemma_len_subset};
use crate::models::{Activity, ActivityView, Room, RoomView, activity_views, room_views};

verus! {

/// A sequence of indices read as integers.
pub open spec fn as_ints(s: Seq<usize>) -> Seq<int> {
    s.map_values(|x: usize| x as int)
}

/// The index of `0..upto` not in `taken` that comes first under `prec`
/// (the earlier one when neither comes first), or -1 when all are taken.
pub open spec fn first_remaining(prec: spec_fn(int, int) -> bool, taken: Seq<int>, upto: int) -> int
    decreases upto,
{
    if upto <= 0 {
        -1
    } else {
        let b = first_remaining(prec, taken, upto - 1);
        let j = upto - 1;
        if taken.contains(j) {
            b
        } else if b < 0 || prec(j, b) {
            j
        } else {
            b
        }
    }
}

/// `k` rounds of selection over `0..n`: each round appends the remaining
/// index that comes first under `prec`.
pub open spec fn selection_order(prec: spec_fn(int, int) -> bool, n: int, k: nat) -> Seq<int>
    decreases k,
{
    if k == 0 {
        Seq::empty()
    } else {
        let p = selection_order(prec, n, (k - 1) as nat);
        let b = first_remaining(prec, p, n);
        if b < 0 {
            p
        } else {
            p.push(b)
        }
    }
}

/// `s` lists each index of `0..n` exactly once.
pub open spec fn is_permutation(s: Seq<int>, n: int) -> bool {
    &&& s.len() == n
    &&& s.no_duplicates()
    &&& forall|k: int| 0 <= k < s.len() ==> 0 <= #[trigger] s[k] < n
    &&& forall|j: int| 0 <= j < n ==> #[trigger] s.contains(j)
}

/// Activity `a` is placed before activity `b`: more time slots first, then
/// more students, then the smaller id, then the earlier position.
pub open spec fn activity_precedes(acts: Seq<ActivityView>) -> spec_fn(int, int) -> bool {
    |a: int, b: int|
        {
            let x = acts[a];
            let y = acts[b];
            ||| x.time_slots.len() > y.time_slots.len()
            ||| (x.time_slots.len() == y.time_slots.len() && x.students_count > y.students_count)
            ||| (x.time_slots.len() == y.time_slots.len() && x.students_count == y.students_count
                && x.id < y.id)
            ||| (x.time_slots.len() == y.time_slots.len() && x.students_count == y.students_count
                && x.id == y.id && a < b)
        }
}

/// Room `a` is tried before room `b`: fewer seats first, then the earlier position.
pub open spec fn room_precedes(rooms: Seq<RoomView>) -> spec_fn(int, int) -> bool {
    |a: int, b: int|
        rooms[a].capacity < rooms[b].capacity || (rooms[a].capacity == rooms[b].capacity && a < b)
}

proof fn lemma_first_remaining(prec: spec_fn(int, int) -> bool, taken: Seq<int>, upto: int)
    requires
        upto >= 0,
    ensures
        first_remaining(prec, taken, upto) == -1 <==> (forall|j: int|
            0 <= j < upto ==> taken.contains(j)),
        first_remaining(prec, taken, upto) != -1 ==> 0 <= first_remaining(prec, taken, upto)
            < upto && !taken.contains(first_remaining(prec, taken, upto)),
    decreases upto,
{
    if upto > 0 {
        lemma_first_remaining(prec, taken, upto - 1);
        if first_remaining(prec, taken, upto) == -1 {
            assert forall|j: int| 0 <= j < upto implies taken.contains(j) by {
                if j < upto - 1 {
                } else {
                }
            }
        }
    }
}

/// A sequence of distinct indices below `n` that is shorter than `n` misses one.
proof fn lemma_misses_one(s: Seq<int>, n: int)
    requires
        s.no_duplicates(),
        s.len() < n,
        forall|k: int| 0 <= k < s.len() ==> 0 <= #[trigger] s[k] < n,
    ensures
        exists|j: int| 0 <= j < n && !s.contains(j),
{
    if forall|j: int| 0 <= j < n ==> s.contains(j) {
        s.unique_seq_to_set();
        lemma_int_range(0, n);
        assert(set_int_range(0, n).subset_of(s.to_set()));
        lemma_len_subset(set_int_range(0, n), s.to_set());
    }
}

/// A sequence of `n` distinct indices below `n` holds every one of them.
proof fn lemma_covers(s: Seq<int>, n: int)
    requires
        s.no_duplicates(),
        s.len() == n,
        forall|k: int| 0 <= k < s.len() ==> 0 <= #[trigger] s[k] < n,
    ensures
        forall|j: int| 0 <= j < n ==> #[trigger] s.contains(j),
{
    assert forall|j: int| 0 <= j < n implies #[trigger] s.contains(j) by {
        if !s.contains(j) {
            s.unique_seq_to_set();
            lemma_int_range(0, n);
            assert(s.to_set().subset_of(set_int_range(0, n).remove(j)));
            lemma_len_subset(s.to_set(), set_int_range(0, n).remove(j));
        }
    }
}

proof fn lemma_selection_prefix(prec: spec_fn(int, int) -> bool, n: int, k: nat)
    requires
        k <= n,
    ensures
        selection_order(prec, n, k).len() == k,
        selection_order(prec, n, k).no_duplicates(),
        forall|i: int|
            0 <= i < k ==> 0 <= #[trigger] selection_order(prec, n, k)[i] < n,
    decreases k,
{
    if k > 0 {
        let p = selection_order(prec, n, (k - 1) as nat);
        lemma_selection_prefix(prec, n, (k - 1) as nat);
        lemma_misses_one(p, n);
        lemma_first_remaining(prec, p, n);
        let b = first_remaining(prec, p, n);
        assert(b != -1);
        assert(selection_order(prec, n, k) == p.push(b));
        assert forall|i: int, j: int| 0 <= i < j < k implies p.push(b)[i] != p.push(b)[j] by {
            if j == k - 1 {
                assert(p.contains(p[i]));
            }
        }
    }
}

/// A full selection over `0..n` is a permutation of `0..n`.
pub proof fn lemma_selection_is_permutation(prec: spec_fn(int, int) -> bool, n: nat)
    ensures
        is_permutation(selection_order(prec, n as int, n), n as int),
{
    lemma_selection_prefix(prec, n as int, n);
    lemma_covers(selection_order(prec, n as int, n), n as int);
}

/// `prec` is a strict total order on `0..n`.
pub open spec fn strict_total(prec: spec_fn(int, int) -> bool, n: int) -> bool {
    &&& forall|a: int| 0 <= a < n ==> !#[trigger] prec(a, a)
    &&& forall|a: int, b: int, c: int|
        0 <= a < n && 0 <= b < n && 0 <= c < n && #[trigger] prec(a, b) && #[trigger] prec(b, c)
            ==> prec(a, c)
    &&& forall|a: int, b: int|
        0 <= a < n && 0 <= b < n && a != b ==> #[trigger] prec(a, b) || #[trigger] prec(b, a)
}

/// `s` lists its items in the order `prec`.
pub open spec fn sorted_by(prec: spec_fn(int, int) -> bool, s: Seq<int>) -> bool {
    forall|i: int, j: int| 0 <= i < j < s.len() ==> prec(#[trigger] s[i], #[trigger] s[j])
}

proof fn lemma_first_remaining_least(prec: spec_fn(int, int) -> bool, taken: Seq<int>, upto: int, n: int)
    requires
        0 <= upto <= n,
        strict_total(prec, n),
    ensures
        first_remaining(prec, taken, upto) != -1 ==> forall|j: int|
            0 <= j < upto && !taken.contains(j) && j != first_remaining(prec, taken, upto) ==> prec(
                first_remaining(prec, taken, upto),
                j,
            ),
    decreases upto,
{
    if upto > 0 {
        lemma_first_remaining_least(prec, taken, upto - 1, n);
        lemma_first_remaining(prec, taken, upto - 1);
        let b = first_remaining(prec, taken, upto - 1);
        let t = upto - 1;
        if !taken.contains(t) && b >= 0 && prec(t, b) {
            assert forall|j: int|
                0 <= j < upto && !taken.contains(j) && j != t implies prec(t, j) by {
                if j != b {
                    assert(prec(b, j));
                }
            }
        }
    }
}

proof fn lemma_selection_step(prec: spec_fn(int, int) -> bool, n: int, i: nat, k: nat)
    requires
        i < k <= n,
    ensures
        selection_order(prec, n, k)[i as int] == first_remaining(prec, selection_order(prec, n, i), n),
        selection_order(prec, n, i) == selection_order(prec, n, k).take(i as int),
    decreases k,
{
    lemma_selection_prefix(prec, n, k);
    lemma_selection_prefix(prec, n, (k - 1) as nat);
    let p = selection_order(prec, n, (k - 1) as nat);
    assert(selection_order(prec, n, k) == p.push(selection_order(prec, n, k)[k - 1]));
    if i < k - 1 {
        lemma_selection_step(prec, n, i, (k - 1) as nat);
    } else {
        assert(p =~= selection_order(prec, n, k).take(i as int));
    }
}

/// Under a strict total order, a full selection lists `0..n` in that order.
pub proof fn lemma_selection_sorted(prec: spec_fn(int, int) -> bool, n: nat)
    requires
        strict_total(prec, n as int),
    ensures
        sorted_by(prec, selection_order(prec, n as int, n)),
{
    let s = selection_order(prec, n as int, n);
    lemma_selection_prefix(prec, n as int, n);
    assert forall|i: int, j: int| 0 <= i < j < s.len() implies prec(#[trigger] s[i], #[trigger] s[j]) by {
        let pi = selection_order(prec, n as int, i as nat);
        let pj = selection_order(prec, n as int, j as nat);
        lemma_selection_step(prec, n as int, i as nat, n);
        lemma_selection_step(prec, n as int, j as nat, n);
        lemma_first_remaining(prec, pi, n as int);
        lemma_first_remaining(prec, pj, n as int);
        lemma_first_remaining_least(prec, pi, n as int, n as int);
        if pi.contains(s[j]) {
            let w = choose|w: int| 0 <= w < pi.len() && pi[w] == s[j];
            assert(s[w] == s[j]);
        }
        assert(s.no_duplicates());
    }
}

/// Activities are strictly and totally ordered by [`activity_precedes`].
pub proof fn lemma_activity_order_total(acts: Seq<ActivityView>)
    ensures
        strict_total(activity_precedes(acts), acts.len() as int),
{
}

/// Rooms are strictly and totally ordered by [`room_precedes`].
pub proof fn lemma_room_order_total(rooms: Seq<RoomView>)
    ensures
        strict_total(room_precedes(rooms), rooms.len() as int),
{
}

fn activity_before(acts: &Vec<Activity>, a: usize, b: usize) -> (r: bool)
    requires
        a < acts@.len(),
        b < acts@.len(),
    ensures
        r == activity_precedes(activity_views(acts@))(a as int, b as int),
{
    let x = &acts[a];
    let y = &acts[b];
    let xs = x.time_slots.len();
    let ys = y.time_slots.len();
    xs > ys || (xs == ys && x.students_count > y.students_count) || (xs == ys
        && x.students_count == y.students_count && x.id < y.id) || (xs == ys
        && x.students_count == y.students_count && x.id == y.id && a < b)
}

fn room_before(rooms: &Vec<Room>, a: usize, b: usize) -> (r: bool)
    requires
        a < rooms@.len(),
        b < rooms@.len(),
    ensures
        r == room_precedes(room_views(rooms@))(a as int, b as int),
{
    rooms[a].capacity < rooms[b].capacity || (rooms[a].capacity == rooms[b].capacity && a < b)
}

/// The order in which the search takes activities: repeatedly the remaining one
/// that comes first under `activity_precedes`.
pub fn activity_order(items: &Vec<Activity>) -> (ord: Vec<usize>)
    ensures
        as_ints(ord@) == selection_order(activity_precedes(activity_views(items@)), items@.len() as int, items@.len() as nat),
        is_permutation(as_ints(ord@), items@.len() as int),
        sorted_by(activity_precedes(activity_views(items@)), as_ints(ord@)),
{
    let n = items.len();
    let ghost prec = activity_precedes(activity_views(items@));
    let mut ord: Vec<usize> = Vec::new();
    let mut taken: Vec<bool> = Vec::new();
    let mut i: usize = 0;
    while i < n
        invariant
            i <= n,
            n == items@.len(),
            taken@.len() == i,
            forall|j: int| 0 <= j < i ==> !#[trigger] taken@[j],
        decreases n - i,
    {
        taken.push(false);
        i += 1;
    }
    let mut k: usize = 0;
    while k < n
        invariant
            k <= n,
            n == items@.len(),
            prec == activity_precedes(activity_views(items@)),
            taken@.len() == n,
            as_ints(ord@) == selection_order(prec, n as int, k as nat),
            forall|j: int| 0 <= j < n ==> #[trigger] taken@[j] == as_ints(ord@).contains(j),
            forall|j: int| 0 <= j < ord@.len() ==> #[trigger] ord@[j] < n,
        decreases n - k,
    {
        let ghost sel = as_ints(ord@);
        let mut best: usize = n;
        let mut j: usize = 0;
        while j < n
            invariant
                j <= n,
                n == items@.len(),
                prec == activity_precedes(activity_views(items@)),
                taken@.len() == n,
                sel == as_ints(ord@),
                forall|t: int| 0 <= t < n ==> #[trigger] taken@[t] == sel.contains(t),
                first_remaining(prec, sel, j as int) == (if best == n { -1 } else { best as int }),
                best == n || best < j,
            decreases n - j,
        {
            if !taken[j] && (best == n || activity_before(items, j, best)) {
                best = j;
            }
            j += 1;
        }
        if best < n {
            taken.set(best, true);
            ord.push(best);
            assert(as_ints(ord@) == sel.push(best as int));
            assert forall|t: int| 0 <= t < n implies #[trigger] taken@[t] == as_ints(ord@).contains(t) by {
                if t == best as int {
                    assert(sel.push(best as int)[sel.len() as int] == t);
                } else if sel.contains(t) {
                    let w = choose|w: int| 0 <= w < sel.len() && sel[w] == t;
                    assert(sel.push(best as int)[w] == t);
                } else {
                    assert(!sel.push(best as int).contains(t));
                }
            }
        } else {
            assert(as_ints(ord@) == sel);
        }
        k += 1;
    }
    proof {
        lemma_selection_is_permutation(prec, n as nat);
        lemma_activity_order_total(activity_views(items@));
        lemma_selection_sorted(prec, n as nat);
    }
    ord
}

/// The order in which the search takes rooms: repeatedly the remaining one
/// that comes first under `room_precedes`.
pub fn room_order(items: &Vec<Room>) -> (ord: Vec<usize>)
    ensures
        as_ints(ord@) == selection_order(room_precedes(room_views(items@)), items@.len() as int, items@.len() as nat),
        is_permutation(as_ints(ord@), items@.len() as int),
        sorted_by(room_precedes(room_views(items@)), as_ints(ord@)),
{
    let n = items.len();
    let ghost prec = room_precedes(room_views(items@));
    let mut ord: Vec<usize> = Vec::new();
    let mut taken: Vec<bool> = Vec::new();
    let mut i: usize = 0;
    while i < n
        invariant
            i <= n,
            n == items@.len(),
            taken@.len() == i,
            forall|j: int| 0 <= j < i ==> !#[trigger] taken@[j],
        decreases n - i,
    {
        taken.push(false);
        i += 1;
    }
    let mut k: usize = 0;
    while k < n
        invariant
            k <= n,
            n == items@.len(),
            prec == room_precedes(room_views(items@)),
            taken@.len() == n,
            as_ints(ord@) == selection_order(prec, n as int, k as nat),
            forall|j: int| 0 <= j < n ==> #[trigger] taken@[j] == as_ints(ord@).contains(j),
            forall|j: int| 0 <= j < ord@.len() ==> #[trigger] ord@[j] < n,
        decreases n - k,
    {
        let ghost sel = as_ints(ord@);
        let mut best: usize = n;
        let mut j: usize = 0;
        while j < n
            invariant
                j <= n,
                n == items@.len(),
                prec == room_precedes(room_views(items@)),
                taken@.len() == n,
                sel == as_ints(ord@),
                forall|t: int| 0 <= t < n ==> #[trigger] taken@[t] == sel.contains(t),
                first_remaining(prec, sel, j as int) == (if best == n { -1 } else { best as int }),
                best == n || best < j,
            decreases n - j,
        {
            if !taken[j] && (best == n || room_before(items, j, best)) {
                best = j;
            }
            j += 1;
        }
        if best < n {
            taken.set(best, true);
            ord.push(best);
            assert(as_ints(ord@) == sel.push(best as int));
            assert forall|t: int| 0 <= t < n implies #[trigger] taken@[t] == as_ints(ord@).contains(t) by {
                if t == best as int {
                    assert(sel.push(best as int)[sel.len() as int] == t);
                } else if sel.contains(t) {
                    let w = choose|w: int| 0 <= w < sel.len() && sel[w] == t;
                    assert(sel.push(best as int)[w] == t);
                } else {
                    assert(!sel.push(best as int).contains(t));
                }
            }
        } else {
            assert(as_ints(ord@) == sel);
        }
        k += 1;
    }
    proof {
        lemma_selection_is_permutation(prec, n as nat);
        lemma_room_order_total(room_views(items@));
        lemma_selection_sorted(prec, n as nat);
    }
    ord
}

} // verus!
