use beet_scheduler::forms::CreateMeetingForm;
use beet_scheduler::slots::{plan_time_slots, slot_datetime, slot_label, PlannedSlot};

fn form(rows: &[(&str, &str, &str)]) -> CreateMeetingForm {
    CreateMeetingForm {
        title: "T".to_string(),
        slot_label: rows.iter().map(|r| r.0.to_string()).collect(),
        slot_date: rows.iter().map(|r| r.1.to_string()).collect(),
        slot_time: rows.iter().map(|r| r.2.to_string()).collect(),
    }
}

fn pairs(slots: &[PlannedSlot]) -> Vec<(String, String)> {
    slots
        .iter()
        .map(|s| (s.label.clone(), s.slot_dt.clone()))
        .collect()
}

#[test]
fn auto_label_weekday_only() {
    let slots = plan_time_slots(&form(&[("", "2026-03-02", "")]));
    assert_eq!(
        pairs(&slots),
        vec![("Monday".to_string(), "2026-03-02T00:00".to_string())]
    );
}

#[test]
fn auto_label_weekday_with_time() {
    let slots = plan_time_slots(&form(&[("", "2026-03-06", "19:00")]));
    assert_eq!(
        pairs(&slots),
        vec![("Friday 19:00".to_string(), "2026-03-06T19:00".to_string())]
    );
}

#[test]
fn explicit_labels_are_kept_and_trimmed() {
    let slots = plan_time_slots(&form(&[
        ("Mon 9am", "2026-03-02", "09:00"),
        ("  Tue 3pm ", " 2026-03-03 ", " 15:00 "),
    ]));
    assert_eq!(
        pairs(&slots),
        vec![
            ("Mon 9am".to_string(), "2026-03-02T09:00".to_string()),
            ("Tue 3pm".to_string(), "2026-03-03T15:00".to_string()),
        ]
    );
}

#[test]
fn blank_dates_give_no_slot() {
    let slots = plan_time_slots(&form(&[("A", "  ", "10:00"), ("B", "2026-03-09", "")]));
    assert_eq!(
        pairs(&slots),
        vec![("B".to_string(), "2026-03-09T00:00".to_string())]
    );
}

#[test]
fn missing_time_and_label_fields_count_as_empty() {
    let f = CreateMeetingForm {
        title: "T".to_string(),
        slot_label: vec![],
        slot_date: vec!["2026-03-07".to_string()],
        slot_time: vec![],
    };
    assert_eq!(
        pairs(&plan_time_slots(&f)),
        vec![("Saturday".to_string(), "2026-03-07T00:00".to_string())]
    );
}

#[test]
fn unreadable_date_labels_with_the_date_itself() {
    let slots = plan_time_slots(&form(&[("", "next week", "10:00")]));
    assert_eq!(
        pairs(&slots),
        vec![("next week 10:00".to_string(), "next weekT10:00".to_string())]
    );
}

#[test]
fn slot_label_uses_given_weekday() {
    assert_eq!(slot_label("", "2026-03-02", "", Some("Monday".to_string())), "Monday");
    assert_eq!(slot_label("", "2026-03-02", "8:00", None), "2026-03-02 8:00");
    assert_eq!(slot_label("Own", "2026-03-02", "8:00", Some("Monday".to_string())), "Own");
}

#[test]
fn slot_datetime_defaults_to_midnight() {
    assert_eq!(slot_datetime("2026-03-02", ""), "2026-03-02T00:00");
    assert_eq!(slot_datetime("2026-03-02", "07:30"), "2026-03-02T07:30");
}
