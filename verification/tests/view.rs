use std::collections::HashSet;

use beet_scheduler::models::{Meeting, TimeSlot};
use beet_scheduler::view::{build_meeting_view, ParticipantAnswer};

fn meeting() -> Meeting {
    Meeting {
        id: "abcd1234".to_string(),
        title: "Totals Test".to_string(),
        created_at: "2026-03-01T00:00:00+00:00".to_string(),
    }
}

fn slot(id: i64, label: &str, dt: &str) -> TimeSlot {
    TimeSlot {
        id,
        meeting_id: "abcd1234".to_string(),
        label: label.to_string(),
        slot_dt: dt.to_string(),
        show_date: false,
    }
}

fn answer(id: i64, name: &str, slot_ids: &[i64]) -> ParticipantAnswer {
    ParticipantAnswer {
        id,
        name: name.to_string(),
        slot_ids: slot_ids.to_vec(),
    }
}

#[test]
fn grid_totals_count_available_participants() {
    let view = build_meeting_view(
        meeting(),
        vec![slot(11, "A", "2026-03-01T10:00"), slot(12, "B", "2026-03-02T10:00")],
        vec![answer(1, "Alice", &[11]), answer(2, "Bob", &[11, 12])],
        &HashSet::new(),
    );
    assert_eq!(view.slot_counts, vec![2, 1]);
    assert_eq!(view.grid.len(), 2);
    assert_eq!(view.grid[0].participant_name, "Alice");
    assert_eq!(view.grid[0].availability, vec![true, false]);
    assert_eq!(view.grid[1].availability, vec![true, true]);
    assert_eq!(view.meeting.title, "Totals Test");
}

#[test]
fn answers_for_other_slots_are_ignored() {
    let view = build_meeting_view(
        meeting(),
        vec![slot(11, "A", "2026-03-01T10:00")],
        vec![answer(1, "Alice", &[99, 98])],
        &HashSet::new(),
    );
    assert_eq!(view.slot_counts, vec![0]);
    assert_eq!(view.grid[0].availability, vec![false]);
}

#[test]
fn shared_labels_show_dates_on_all_slots() {
    let view = build_meeting_view(
        meeting(),
        vec![
            slot(1, "Monday", "2026-03-02T00:00"),
            slot(2, "Tuesday", "2026-03-03T00:00"),
            slot(3, "Monday", "2026-03-09T00:00"),
        ],
        vec![],
        &HashSet::new(),
    );
    assert!(view.slots.iter().all(|s| s.show_date));
    assert_eq!(view.slot_counts, vec![0, 0, 0]);
}

#[test]
fn distinct_labels_hide_dates() {
    let mut s = slot(2, "Tuesday", "2026-03-03T00:00");
    s.show_date = true;
    let view = build_meeting_view(
        meeting(),
        vec![slot(1, "Monday", "2026-03-02T00:00"), s],
        vec![],
        &HashSet::new(),
    );
    assert!(view.slots.iter().all(|s| !s.show_date));
    assert_eq!(view.slots[1].label, "Tuesday");
    assert_eq!(view.slots[1].id, 2);
}

#[test]
fn editable_rows_follow_the_given_ids() {
    let mut editable = HashSet::new();
    editable.insert(2i64);
    let view = build_meeting_view(
        meeting(),
        vec![slot(11, "A", "2026-03-01T10:00")],
        vec![answer(1, "Alice", &[]), answer(2, "Bob", &[11])],
        &editable,
    );
    assert!(!view.grid[0].editable);
    assert!(view.grid[1].editable);
    assert_eq!(view.grid[1].participant_id, 2);
}
