use rooms_scheduler::{
    activity_order, config_from_values, room_order, Activity, ConflictIndex, IndexError, Room,
};

fn room(name: &str, capacity: u32) -> Room {
    Room { name: name.to_string(), capacity }
}

fn act(id: u32, slots: Vec<u32>, students: u32) -> Activity {
    Activity {
        id,
        subject: String::new(),
        room: room("", 0),
        time_slots: slots,
        students_count: students,
    }
}

#[test]
fn index_commit_and_release() {
    let mut ix = ConflictIndex::new();
    assert!(ix.is_available(0, &vec![1, 2]));
    assert_eq!(ix.commit(0, &vec![1, 2]), Ok(()));
    assert!(!ix.is_available(0, &vec![2, 3]));
    assert!(ix.is_available(1, &vec![1, 2]));
    assert!(ix.is_available(0, &vec![3]));
    assert_eq!(ix.commit(0, &vec![2]), Err(IndexError::InvalidCommit));
    assert_eq!(ix.release(0, &vec![3]), Err(IndexError::InvalidRelease));
    assert_eq!(ix.release(0, &vec![1, 2]), Ok(()));
    assert!(ix.is_available(0, &vec![1, 2]));
}

#[test]
fn activities_most_constrained_first() {
    let acts = vec![
        act(4, vec![1], 10),
        act(3, vec![1, 2], 5),
        act(2, vec![1], 20),
        act(1, vec![1], 10),
        act(5, vec![1, 2], 5),
    ];
    assert_eq!(activity_order(&acts), vec![1, 4, 2, 3, 0]);
}

#[test]
fn rooms_tightest_first() {
    let rooms = vec![room("a", 30), room("b", 10), room("c", 20), room("d", 10)];
    assert_eq!(room_order(&rooms), vec![1, 3, 2, 0]);
}

#[test]
fn config_defaults() {
    let c = config_from_values(None, None, None, None, None, None);
    assert_eq!(c.port, "3000");
    assert_eq!(c.jwt_secret, "default_secret");
    assert_eq!(c.jwt_refresh_secret_key, "default_refresh_secret");
    assert_eq!(c.jwt_algorithm, "HS256");
    assert_eq!(c.jwt_expire_minutes, 60);
    assert_eq!(c.jwt_refresh_expire_days, 7);
}

#[test]
fn config_given_values() {
    let c = config_from_values(
        Some("8080".to_string()),
        Some("s".to_string()),
        Some("r".to_string()),
        Some("HS512".to_string()),
        Some("45".to_string()),
        Some("+3".to_string()),
    );
    assert_eq!(c.port, "8080");
    assert_eq!(c.jwt_secret, "s");
    assert_eq!(c.jwt_refresh_secret_key, "r");
    assert_eq!(c.jwt_algorithm, "HS512");
    assert_eq!(c.jwt_expire_minutes, 45);
    assert_eq!(c.jwt_refresh_expire_days, 3);
}

#[test]
fn config_unreadable_numbers() {
    let c = config_from_values(
        None,
        None,
        None,
        None,
        Some("ten".to_string()),
        Some("4294967296".to_string()),
    );
    assert_eq!(c.jwt_expire_minutes, 60);
    assert_eq!(c.jwt_refresh_expire_days, 7);
}

#[test]
fn config_number_edge_cases() {
    let read = |s: &str| config_from_values(None, None, None, None, Some(s.to_string()), None)
        .jwt_expire_minutes;
    assert_eq!(read("4294967295"), 4294967295);
    assert_eq!(read("007"), 7);
    assert_eq!(read(""), 60);
    assert_eq!(read("+"), 60);
    assert_eq!(read("-1"), 60);
    assert_eq!(read(" 5"), 60);
    assert_eq!(read("5é"), 60);
    assert_eq!(read("99999999999999999999"), 60);
}
