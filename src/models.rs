//! Plain data of one scheduling run, and the mathematical views of it.
use vstd::prelude::*;

verus! {

/// A room of the pool: a name and a number of seats.
#[derive(Clone, Debug)]
pub struct Room {
    pub name: String,
    pub capacity: u32,
}

/// The mathematical view of a [`Room`].
pub struct RoomView {
    pub name: Seq<char>,
    pub capacity: u32,
}

impl View for Room {
    type V = RoomView;

    open spec fn view(&self) -> RoomView {
        RoomView { name: self.name@, capacity: self.capacity }
    }
}

/// An activity to place: it needs one room for all of its time slots at once.
/// The `room` field is a hint carried by callers; placement ignores it.
#[derive(Clone, Debug)]
pub struct Activity {
    pub id: u32,
    pub subject: String,
    pub room: Room,
    pub time_slots: Vec<u32>,
    pub students_count: u32,
}

/// The mathematical view of an [`Activity`].
pub struct ActivityView {
    pub id: u32,
    pub subject: Seq<char>,
    pub room: RoomView,
    pub time_slots: Seq<u32>,
    pub students_count: u32,
}

impl View for Activity {
    type V = ActivityView;

    open spec fn view(&self) -> ActivityView {
        ActivityView {
            id: self.id,
            subject: self.subject@,
            room: self.room@,
            time_slots: self.time_slots@,
            students_count: self.students_count,
        }
    }
}

/// One scheduling run: the activities to place and the room pool.
#[derive(Clone, Debug)]
pub struct ActivitiesRequest {
    pub activities: Vec<Activity>,
    pub rooms: Vec<Room>,
}

/// The mathematical view of an [`ActivitiesRequest`].
pub struct RequestView {
    pub activities: Seq<ActivityView>,
    pub rooms: Seq<RoomView>,
}

impl View for ActivitiesRequest {
    type V = RequestView;

    open spec fn view(&self) -> RequestView {
        RequestView {
            activities: activity_views(self.activities@),
            rooms: room_views(self.rooms@),
        }
    }
}

/// The views of a sequence of activities, in the same order.
pub open spec fn activity_views(s: Seq<Activity>) -> Seq<ActivityView> {
    s.map_values(|a: Activity| a@)
}

/// The views of a sequence of rooms, in the same order.
pub open spec fn room_views(s: Seq<Room>) -> Seq<RoomView> {
    s.map_values(|r: Room| r@)
}

/// Why an activity could not be placed.
#[derive(PartialEq, Eq, Structural, Clone, Copy, Debug)]
pub enum FailureReason {
    /// No room of the pool has enough seats.
    CapacityExhausted,
    /// Rooms with enough seats exist, but each is taken at one of the slots.
    SlotConflictExhausted,
    /// The activity is malformed: it has no time slot, needs no student, or
    /// repeats an earlier activity's id.
    ValidationError,
}

/// An activity that could not be placed, and why.
#[derive(PartialEq, Eq, Structural, Clone, Copy, Debug)]
pub struct Unplaced {
    pub activity_id: u32,
    pub reason: FailureReason,
}

/// Why a run produced no mapping.
#[derive(Clone, Debug)]
pub enum AssignmentError {
    /// The room pool is malformed: the names of the rooms that have no seat
    /// or repeat an earlier room's name, in pool order. Nothing else is checked.
    MalformedRooms(Vec<String>),
    /// The activities that are malformed, or else those that cannot be placed,
    /// each with its reason.
    Unplaced(Vec<Unplaced>),
}

/// The mathematical view of an [`AssignmentError`].
pub enum ErrorView {
    MalformedRooms(Seq<Seq<char>>),
    Unplaced(Seq<Unplaced>),
}

/// The views of a sequence of strings, in the same order.
pub open spec fn string_views(s: Seq<String>) -> Seq<Seq<char>> {
    s.map_values(|x: String| x@)
}

impl View for AssignmentError {
    type V = ErrorView;

    open spec fn view(&self) -> ErrorView {
        match self {
            AssignmentError::MalformedRooms(names) => ErrorView::MalformedRooms(string_views(names@)),
            AssignmentError::Unplaced(u) => ErrorView::Unplaced(u@),
        }
    }
}

/// A committed pairing of an activity with a room.
#[derive(Clone, Debug)]
pub struct Placement {
    pub activity_id: u32,
    pub room_name: String,
}

impl View for Placement {
    type V = (u32, Seq<char>);

    open spec fn view(&self) -> (u32, Seq<char>) {
        (self.activity_id, self.room_name@)
    }
}

} // verus!
