//! The forms that browsers post, as plain values.

use vstd::prelude::*;

verus! {

/// A request body read as a form of type `T`.
pub struct QsForm<T>(pub T);

/// The form that creates a meeting: a title and, for each time slot, a label
/// (optional), a date and a time (optional), matched by position.
pub struct CreateMeetingForm {
    pub title: String,
    pub slot_label: Vec<String>,
    pub slot_date: Vec<String>,
    pub slot_time: Vec<String>,
}

/// The form that answers a meeting: the participant's name, the slots they
/// can attend, and, when they edit an earlier answer, its participant id.
pub struct SubmitResponseForm {
    pub name: String,
    pub slot_ids: Vec<i64>,
    pub participant_id: Option<i64>,
}

} // verus!
