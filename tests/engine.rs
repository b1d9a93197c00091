use rooms_scheduler::{
    assign_rooms, ActivitiesRequest, Activity, AssignmentError, FailureReason, Room, Unplaced,
};

fn room(name: &str, capacity: u32) -> Room {
    Room { name: name.to_string(), capacity }
}

fn act(id: u32, slots: Vec<u32>, students: u32) -> Activity {
    Activity {
        id,
        subject: format!("subject {}", id),
        room: room("", 0),
        time_slots: slots,
        students_count: students,
    }
}

fn run(activities: Vec<Activity>, rooms: Vec<Room>) -> Result<Vec<(u32, String)>, Vec<Unplaced>> {
    let req = ActivitiesRequest { activities, rooms };
    match assign_rooms(&req) {
        Ok(ps) => Ok(ps.into_iter().map(|p| (p.activity_id, p.room_name)).collect()),
        Err(AssignmentError::Unplaced(u)) => Err(u),
        Err(AssignmentError::MalformedRooms(names)) => panic!("malformed rooms {:?}", names),
    }
}

fn malformed_rooms(activities: Vec<Activity>, rooms: Vec<Room>) -> Vec<String> {
    let req = ActivitiesRequest { activities, rooms };
    match assign_rooms(&req) {
        Err(AssignmentError::MalformedRooms(names)) => names,
        _ => panic!("expected a malformed room pool"),
    }
}

fn placed(pairs: &[(u32, &str)]) -> Vec<(u32, String)> {
    pairs.iter().map(|(i, n)| (*i, n.to_string())).collect()
}

fn check_valid(activities: &[Activity], rooms: &[Room], mapping: &[(u32, String)]) {
    assert_eq!(mapping.len(), activities.len());
    for (i, (id, name)) in mapping.iter().enumerate() {
        assert_eq!(*id, activities[i].id);
        let r = rooms.iter().find(|r| &r.name == name).unwrap();
        assert!(r.capacity >= activities[i].students_count);
    }
    for i in 0..mapping.len() {
        for j in (i + 1)..mapping.len() {
            if mapping[i].1 == mapping[j].1 {
                for s in &activities[i].time_slots {
                    assert!(!activities[j].time_slots.contains(s));
                }
            }
        }
    }
}

#[test]
fn example_tightest_rooms() {
    let r = run(
        vec![act(1, vec![1, 2], 30), act(2, vec![2, 3], 10)],
        vec![room("R1", 30), room("R2", 10)],
    );
    assert_eq!(r.unwrap(), placed(&[(1, "R1"), (2, "R2")]));
}

#[test]
fn example_swapped_capacities() {
    let r = run(
        vec![act(1, vec![1, 2], 30), act(2, vec![2, 3], 10)],
        vec![room("R1", 10), room("R2", 30)],
    );
    assert_eq!(r.unwrap(), placed(&[(1, "R2"), (2, "R1")]));
}

#[test]
fn success_is_valid() {
    let activities = vec![
        act(1, vec![1, 2], 20),
        act(2, vec![2], 5),
        act(3, vec![1], 5),
        act(4, vec![3, 4, 5], 25),
        act(5, vec![4], 25),
    ];
    let rooms = vec![room("A", 10), room("B", 25), room("C", 30)];
    let req = ActivitiesRequest { activities: activities.clone(), rooms: rooms.clone() };
    let ps = assign_rooms(&req).ok().unwrap();
    let mapping: Vec<(u32, String)> = ps.into_iter().map(|p| (p.activity_id, p.room_name)).collect();
    check_valid(&activities, &rooms, &mapping);
}

#[test]
fn disjoint_slots_always_succeed() {
    let activities = vec![act(1, vec![1], 8), act(2, vec![2, 3], 9), act(3, vec![4], 10)];
    let rooms = vec![room("A", 10), room("B", 12), room("C", 10)];
    let r = run(activities.clone(), rooms.clone()).unwrap();
    check_valid(&activities, &rooms, &r);
    assert_eq!(r, placed(&[(1, "A"), (2, "A"), (3, "A")]));
}

#[test]
fn same_input_same_result() {
    let make = || {
        (
            vec![act(3, vec![1], 5), act(1, vec![1], 5), act(2, vec![1], 5)],
            vec![room("X", 5), room("Y", 5)],
        )
    };
    let (a1, r1) = make();
    let (a2, r2) = make();
    let first = run(a1, r1);
    let second = run(a2, r2);
    assert_eq!(first, second);
    assert_eq!(
        first,
        Err(vec![Unplaced { activity_id: 3, reason: FailureReason::SlotConflictExhausted }])
    );
}

#[test]
fn identical_slots_one_room() {
    let r = run(
        vec![act(1, vec![4, 5], 20), act(2, vec![5, 4], 15)],
        vec![room("small", 10), room("big", 40)],
    );
    let f = r.unwrap_err();
    assert_eq!(f.len(), 1);
    assert_eq!(f[0].reason, FailureReason::SlotConflictExhausted);
    assert_eq!(f[0].activity_id, 2);
}

#[test]
fn exact_capacity_is_enough() {
    let r = run(vec![act(7, vec![1], 30)], vec![room("R", 30)]);
    assert_eq!(r.unwrap(), placed(&[(7, "R")]));
}

#[test]
fn one_seat_short_is_rejected() {
    let r = run(vec![act(7, vec![1], 30)], vec![room("R", 29), room("S", 29)]);
    assert_eq!(
        r,
        Err(vec![Unplaced { activity_id: 7, reason: FailureReason::CapacityExhausted }])
    );
}

#[test]
fn no_rooms_at_all() {
    let r = run(vec![act(1, vec![1], 1)], vec![]);
    assert_eq!(
        r,
        Err(vec![Unplaced { activity_id: 1, reason: FailureReason::CapacityExhausted }])
    );
}

#[test]
fn empty_request_succeeds() {
    assert_eq!(run(vec![], vec![]).unwrap(), vec![]);
    assert_eq!(run(vec![], vec![room("R", 3)]).unwrap(), vec![]);
}

#[test]
fn backtracking_revises_an_earlier_choice() {
    let r = run(
        vec![act(1, vec![1, 2], 5), act(2, vec![2, 3], 5), act(3, vec![3], 9)],
        vec![room("X", 5), room("Y", 9)],
    );
    assert_eq!(r.unwrap(), placed(&[(1, "Y"), (2, "X"), (3, "Y")]));
}

#[test]
fn mixed_failure_reasons() {
    let r = run(
        vec![act(1, vec![1], 5), act(2, vec![1], 5), act(3, vec![2], 50)],
        vec![room("X", 10)],
    );
    assert_eq!(
        r,
        Err(vec![
            Unplaced { activity_id: 3, reason: FailureReason::CapacityExhausted },
            Unplaced { activity_id: 2, reason: FailureReason::SlotConflictExhausted },
        ])
    );
}

#[test]
fn empty_slot_set_is_a_validation_error() {
    let r = run(vec![act(1, vec![1], 5), act(2, vec![], 5)], vec![room("X", 10)]);
    assert_eq!(
        r,
        Err(vec![Unplaced { activity_id: 2, reason: FailureReason::ValidationError }])
    );
}

#[test]
fn repeated_id_is_a_validation_error() {
    let r = run(
        vec![act(1, vec![1], 5), act(1, vec![2], 5), act(3, vec![], 1)],
        vec![room("X", 10)],
    );
    assert_eq!(
        r,
        Err(vec![
            Unplaced { activity_id: 1, reason: FailureReason::ValidationError },
            Unplaced { activity_id: 3, reason: FailureReason::ValidationError },
        ])
    );
}

#[test]
fn zero_students_is_a_validation_error() {
    let r = run(vec![act(1, vec![1], 0), act(2, vec![2], 3)], vec![room("X", 5)]);
    assert_eq!(
        r,
        Err(vec![Unplaced { activity_id: 1, reason: FailureReason::ValidationError }])
    );
}

#[test]
fn seatless_room_is_a_validation_error() {
    let names = malformed_rooms(
        vec![act(1, vec![1], 2), act(2, vec![2], 3)],
        vec![room("X", 5), room("Z", 0)],
    );
    assert_eq!(names, vec!["Z".to_string()]);
}

#[test]
fn seatless_room_without_activities_is_a_validation_error() {
    let names = malformed_rooms(vec![], vec![room("Z", 0)]);
    assert_eq!(names, vec!["Z".to_string()]);
}

#[test]
fn repeated_room_name_is_a_validation_error() {
    let names = malformed_rooms(
        vec![act(1, vec![], 2)],
        vec![room("X", 5), room("Y", 0), room("X", 9)],
    );
    assert_eq!(names, vec!["Y".to_string(), "X".to_string()]);
}
