//! Room assignment: places activities, each needing a set of time slots and a
//! number of seats, into a pool of rooms with no room double-booked.
pub mod config;
pub mod models;
pub mod order;
pub mod conflict_index;
pub mod search;
pub mod engine;
pub mod laws;

pub use config::{Config, config_from_values};
pub use models::{
    ActivitiesRequest, Activity, AssignmentError, FailureReason, Placement, Room, Unplaced,
};
pub use conflict_index::{ConflictIndex, IndexError};
pub use engine::assign_rooms;
pub use order::{activity_order, room_order};
