//! What a meeting page shows: the meeting, its slots, and who can attend when.

use vstd::prelude::*;

verus! {

/// A meeting: its id in links, its title and when it was created.
pub struct Meeting {
    pub id: String,
    pub title: String,
    pub created_at: String,
}

/// A time slot of a meeting.
pub struct TimeSlot {
    pub id: i64,
    pub meeting_id: String,
    pub label: String,
    pub slot_dt: String,
    /// True when multiple slots share the same weekday and the date number should be shown.
    pub show_date: bool,
}

/// Someone who answered a meeting.
pub struct Participant {
    pub id: i64,
    pub meeting_id: String,
    pub name: String,
}

/// One row of the availability grid: a participant and, per slot, whether
/// they can attend it.
pub struct GridRow {
    pub participant_id: i64,
    pub participant_name: String,
    pub availability: Vec<bool>,
    /// Whether the viewing browser may edit this row.
    pub editable: bool,
}

/// A meeting page: the meeting, its slots, the grid, and per slot how many
/// participants can attend it.
pub struct MeetingView {
    pub meeting: Meeting,
    pub slots: Vec<TimeSlot>,
    pub grid: Vec<GridRow>,
    pub slot_counts: Vec<usize>,
}

} // verus!
