//! Who may edit which answer: a browser may change a participant's answer only
//! when it presents the edit token stored with that participant.

use std::collections::{HashMap, HashSet};

use vstd::prelude::*;
use vstd::std_specs::hash::spec_hash_map_iter;
use vstd::std_specs::iter::IteratorSpec;

use crate::edit_tokens::token_view;
use crate::forms::SubmitResponseForm;
use crate::text::{trim, trim_str};
use crate::token::tokens_match;

verus! {

broadcast use vstd::std_specs::hash::group_hash_axioms;

/// Whether the browser's tokens hold, for participant `pid`, the token that is
/// stored with that participant (`stored`, `None` when none is stored).
pub open spec fn holds_token(tokens: Map<i64, Seq<char>>, pid: i64, stored: Option<String>) -> bool {
    &&& stored is Some
    &&& tokens.contains_key(pid)
    &&& tokens[pid] == stored->0@
}

/// The ids whose token the browser holds, given the tokens stored with the
/// meeting's participants (`stored` maps each participant id found to its
/// stored token, if any).
pub open spec fn editable_ids(tokens: Map<i64, Seq<char>>, stored: Map<i64, Option<String>>) -> Set<
    i64,
> {
    Set::new(|pid: i64| stored.contains_key(pid) && holds_token(tokens, pid, stored[pid]))
}

/// The participant rows that this browser may edit: those whose stored token
/// equals the one the browser holds for them.
pub fn verify_edit_tokens(
    edit_tokens: &HashMap<i64, String>,
    stored: &HashMap<i64, Option<String>>,
) -> (res: HashSet<i64>)
    ensures
        res@ == editable_ids(token_view(edit_tokens@), stored@),
{
    let ghost tokens = token_view(edit_tokens@);
    let ghost want = editable_ids(tokens, stored@);
    let mut res: HashSet<i64> = HashSet::new();
    let ghost all = spec_hash_map_iter(edit_tokens).remaining();
    for (pid, cookie_token) in it: edit_tokens.iter()
        invariant
            it.seq() == all,
            tokens == token_view(edit_tokens@),
            want == editable_ids(tokens, stored@),
            forall|p: i64|
                #[trigger] res@.contains(p) <==> want.contains(p) && exists|j: int|
                    0 <= j < it.index() && *it.seq()[j].0 == p,
    {
        let ghost idx = it.index();
        assert(edit_tokens@.contains_key(*pid) && edit_tokens@[*pid] == *cookie_token);
        let ghost before = res@;
        match stored.get(pid) {
            Some(Some(db_token)) => {
                if tokens_match(db_token.as_str(), cookie_token.as_str()) {
                    res.insert(*pid);
                }
            },
            _ => {},
        }
        assert forall|p: i64|
            #[trigger] res@.contains(p) <==> want.contains(p) && exists|j: int|
                0 <= j < idx + 1 && *it.seq()[j].0 == p by {
            if p == *pid {
                assert(*it.seq()[idx].0 == p);
            } else {
                if exists|j: int| 0 <= j < idx + 1 && *it.seq()[j].0 == p {
                    let j = choose|j: int| 0 <= j < idx + 1 && *it.seq()[j].0 == p;
                    assert(j < idx);
                }
            }
        }
    }
    assert forall|p: i64| #[trigger] res@.contains(p) <==> want.contains(p) by {
        if want.contains(p) {
            assert(edit_tokens@.contains_key(p));
            assert(all.contains((&p, &edit_tokens@[p])));
            let j = choose|j: int| 0 <= j < all.len() && all[j] == (&p, &edit_tokens@[p]);
            assert(*all[j].0 == p);
        }
    }
    assert(res@ =~= want);
    res
}

/// A browser that holds no tokens may edit no row.
pub proof fn lemma_no_tokens_edit_nothing(stored: Map<i64, Option<String>>)
    ensures
        editable_ids(Map::empty(), stored) == Set::<i64>::empty(),
{
    assert(editable_ids(Map::empty(), stored) =~= Set::<i64>::empty());
}

/// A row is editable only when the browser holds a token for it, the row has
/// a stored token, and the two are equal: a missing, different or forged
/// token gives no right to edit.
pub proof fn lemma_editable_needs_matching_token(
    tokens: Map<i64, Seq<char>>,
    stored: Map<i64, Option<String>>,
    pid: i64,
)
    ensures
        editable_ids(tokens, stored).contains(pid) ==> tokens.contains_key(pid)
            && stored.contains_key(pid) && stored[pid] is Some && tokens[pid] == stored[pid]->0@,
        !tokens.contains_key(pid) ==> !editable_ids(tokens, stored).contains(pid),
        stored.contains_key(pid) && stored[pid] is None ==> !editable_ids(tokens, stored).contains(
            pid,
        ),
        tokens.contains_key(pid) && stored.contains_key(pid) && stored[pid] is Some && tokens[pid]
            != stored[pid]->0@ ==> !editable_ids(tokens, stored).contains(pid),
{
}

/// Handing a browser the token stored with a row (as `record_token` does when
/// the row is added) lets it edit that row from then on, and changes nothing
/// for the other rows.
pub proof fn lemma_recorded_token_grants_edit(
    tokens: Map<i64, Seq<char>>,
    stored: Map<i64, Option<String>>,
    pid: i64,
    token: String,
)
    requires
        stored.contains_key(pid),
        stored[pid] == Some(token),
    ensures
        editable_ids(tokens.insert(pid, token@), stored) == editable_ids(tokens, stored).insert(pid),
{
    assert(editable_ids(tokens.insert(pid, token@), stored) =~= editable_ids(tokens, stored).insert(
        pid,
    ));
}

/// A participant row that the store found: its id and stored edit token.
pub struct StoredParticipant {
    pub id: i64,
    pub edit_token: Option<String>,
}

/// Which participant row an answer is looked up by.
pub enum ParticipantLookup {
    /// The row with this id, named by the form to edit it.
    ById(i64),
    /// The row with this (trimmed) name in the meeting.
    ByName(String),
}

/// Which row an answer is written to.
pub enum ParticipantChoice {
    /// Edit the row with this id, renaming it to the submitted name.
    Rename(i64),
    /// Write the answer again to this existing row of the same name.
    Reuse(i64),
    /// Add a new row, with a fresh edit token for this browser.
    Insert,
}

/// The row that an answer goes to, given the row found by the lookup that
/// `participant_lookup` asked for. A row named by id is edited only when the
/// row found is that row.
pub open spec fn participant_choice(
    form_participant_id: Option<i64>,
    found: Option<StoredParticipant>,
    tokens: Map<i64, Seq<char>>,
) -> ParticipantChoice {
    match form_participant_id {
        Some(p) => match found {
            Some(sp) => if sp.id == p && holds_token(tokens, p, sp.edit_token) {
                ParticipantChoice::Rename(p)
            } else {
                ParticipantChoice::Insert
            },
            None => ParticipantChoice::Insert,
        },
        None => match found {
            Some(sp) => if holds_token(tokens, sp.id, sp.edit_token) {
                ParticipantChoice::Reuse(sp.id)
            } else {
                ParticipantChoice::Insert
            },
            None => ParticipantChoice::Insert,
        },
    }
}

/// The browser that holds a row's token keeps writing to that row: naming it
/// by id renames it, naming it by name answers again in it. Without the
/// token a new row is added either way.
pub proof fn lemma_token_holder_keeps_row(sp: StoredParticipant, tokens: Map<i64, Seq<char>>)
    ensures
        holds_token(tokens, sp.id, sp.edit_token) ==> participant_choice(Some(sp.id), Some(sp), tokens)
            == ParticipantChoice::Rename(sp.id),
        holds_token(tokens, sp.id, sp.edit_token) ==> participant_choice(None, Some(sp), tokens)
            == ParticipantChoice::Reuse(sp.id),
        !holds_token(tokens, sp.id, sp.edit_token) ==> participant_choice(
            Some(sp.id),
            Some(sp),
            tokens,
        ) == ParticipantChoice::Insert,
        !holds_token(tokens, sp.id, sp.edit_token) ==> participant_choice(None, Some(sp), tokens)
            == ParticipantChoice::Insert,
{
}

/// When no row was found, or the browser holds no tokens at all, the answer
/// goes to a new row.
pub proof fn lemma_no_row_or_no_token_adds_row(
    form_participant_id: Option<i64>,
    found: Option<StoredParticipant>,
    tokens: Map<i64, Seq<char>>,
)
    ensures
        participant_choice(form_participant_id, None, tokens) == ParticipantChoice::Insert,
        participant_choice(form_participant_id, found, Map::empty()) == ParticipantChoice::Insert,
{
}

/// After a browser is handed the token of the row it added, a later answer
/// that names that row edits it instead of adding another.
pub proof fn lemma_added_row_editable_later(
    tokens: Map<i64, Seq<char>>,
    pid: i64,
    token: String,
)
    ensures
        participant_choice(
            Some(pid),
            Some(StoredParticipant { id: pid, edit_token: Some(token) }),
            tokens.insert(pid, token@),
        ) == ParticipantChoice::Rename(pid),
{
}

/// The participant row to look up for an answer: the one the form names to
/// edit, else the one with the submitted name, trimmed.
pub fn participant_lookup(form: &SubmitResponseForm) -> (res: ParticipantLookup)
    ensures
        match form.participant_id {
            Some(p) => res == ParticipantLookup::ById(p),
            None => res matches ParticipantLookup::ByName(n) && n@ == trim(form.name@),
        },
{
    match form.participant_id {
        Some(p) => ParticipantLookup::ById(p),
        None => ParticipantLookup::ByName(trim_str(form.name.as_str())),
    }
}

/// The row that an answer goes to. An existing row is written only when the
/// browser holds that row's stored edit token; otherwise a new row is added.
pub fn choose_participant(
    form_participant_id: Option<i64>,
    found: Option<StoredParticipant>,
    edit_tokens: &HashMap<i64, String>,
) -> (res: ParticipantChoice)
    ensures
        res == participant_choice(form_participant_id, found, token_view(edit_tokens@)),
        match res {
            ParticipantChoice::Rename(q) | ParticipantChoice::Reuse(q) => found is Some
                && found->0.id == q && holds_token(token_view(edit_tokens@), q, found->0.edit_token),
            ParticipantChoice::Insert => true,
        },
{
    match form_participant_id {
        Some(p) => match found {
            Some(sp) => {
                if sp.id != p {
                    return ParticipantChoice::Insert;
                }
                match sp.edit_token {
                    Some(db_token) => match edit_tokens.get(&p) {
                        Some(cookie_token) => {
                            if tokens_match(cookie_token.as_str(), db_token.as_str()) {
                                ParticipantChoice::Rename(p)
                            } else {
                                ParticipantChoice::Insert
                            }
                        },
                        None => ParticipantChoice::Insert,
                    },
                    None => ParticipantChoice::Insert,
                }
            },
            None => ParticipantChoice::Insert,
        },
        None => match found {
            Some(sp) => match sp.edit_token {
                Some(db_token) => match edit_tokens.get(&sp.id) {
                    Some(cookie_token) => {
                        if *cookie_token == db_token {
                            ParticipantChoice::Reuse(sp.id)
                        } else {
                            ParticipantChoice::Insert
                        }
                    },
                    None => ParticipantChoice::Insert,
                },
                None => ParticipantChoice::Insert,
            },
            None => ParticipantChoice::Insert,
        },
    }
}

} // verus!
