use std::collections::HashMap;

use beet_scheduler::editing::{
    choose_participant, participant_lookup, verify_edit_tokens, ParticipantChoice,
    ParticipantLookup, StoredParticipant,
};
use beet_scheduler::forms::SubmitResponseForm;

fn tokens(pairs: &[(i64, &str)]) -> HashMap<i64, String> {
    pairs.iter().map(|(p, t)| (*p, t.to_string())).collect()
}

fn stored(id: i64, token: Option<&str>) -> Option<StoredParticipant> {
    Some(StoredParticipant {
        id,
        edit_token: token.map(str::to_string),
    })
}

#[test]
fn verify_keeps_only_matching_tokens() {
    let cookie = tokens(&[(1, "aaa"), (2, "bbb"), (3, "ccc"), (4, "ddd")]);
    let mut db: HashMap<i64, Option<String>> = HashMap::new();
    db.insert(1, Some("aaa".to_string()));
    db.insert(2, Some("xxx".to_string()));
    db.insert(3, None);
    let editable = verify_edit_tokens(&cookie, &db);
    assert_eq!(editable.len(), 1);
    assert!(editable.contains(&1));
}

#[test]
fn verify_with_no_cookie_allows_nothing() {
    let mut db: HashMap<i64, Option<String>> = HashMap::new();
    db.insert(1, Some("aaa".to_string()));
    assert!(verify_edit_tokens(&HashMap::new(), &db).is_empty());
}

#[test]
fn token_edit_renames_row() {
    let cookie = tokens(&[(9, "tok")]);
    let choice = choose_participant(Some(9), stored(9, Some("tok")), &cookie);
    assert!(matches!(choice, ParticipantChoice::Rename(9)));
}

#[test]
fn forged_token_inserts_new_row() {
    let cookie = tokens(&[(9, &"0".repeat(32))]);
    let choice = choose_participant(Some(9), stored(9, Some("tok")), &cookie);
    assert!(matches!(choice, ParticipantChoice::Insert));
}

#[test]
fn unknown_participant_id_inserts_new_row() {
    let cookie = tokens(&[(9, "tok")]);
    assert!(matches!(
        choose_participant(Some(9), None, &cookie),
        ParticipantChoice::Insert
    ));
    assert!(matches!(
        choose_participant(Some(9), stored(9, None), &cookie),
        ParticipantChoice::Insert
    ));
}

#[test]
fn same_name_with_token_reuses_row() {
    let cookie = tokens(&[(5, "tok")]);
    let choice = choose_participant(None, stored(5, Some("tok")), &cookie);
    assert!(matches!(choice, ParticipantChoice::Reuse(5)));
}

#[test]
fn same_name_without_token_inserts_duplicate() {
    let choice = choose_participant(None, stored(5, Some("tok")), &HashMap::new());
    assert!(matches!(choice, ParticipantChoice::Insert));
    let other = tokens(&[(6, "tok")]);
    assert!(matches!(
        choose_participant(None, stored(5, Some("tok")), &other),
        ParticipantChoice::Insert
    ));
}

#[test]
fn new_name_inserts_row() {
    assert!(matches!(
        choose_participant(None, None, &tokens(&[(1, "a")])),
        ParticipantChoice::Insert
    ));
}

#[test]
fn lookup_prefers_participant_id_then_trimmed_name() {
    let by_id = SubmitResponseForm {
        name: " Alicia ".to_string(),
        slot_ids: vec![],
        participant_id: Some(3),
    };
    assert!(matches!(participant_lookup(&by_id), ParticipantLookup::ById(3)));
    let by_name = SubmitResponseForm {
        name: "  Alice \n".to_string(),
        slot_ids: vec![1],
        participant_id: None,
    };
    match participant_lookup(&by_name) {
        ParticipantLookup::ByName(n) => assert_eq!(n, "Alice"),
        _ => panic!("expected a lookup by name"),
    }
}

#[test]
fn token_of_another_row_does_not_allow_edit() {
    let cookie = tokens(&[(9, "tok")]);
    let choice = choose_participant(Some(9), stored(8, Some("tok")), &cookie);
    assert!(matches!(choice, ParticipantChoice::Insert));
}
