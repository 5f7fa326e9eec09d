//! The time slots of a new meeting: which rows of the creation form become
//! slots, and the label and date-time that each slot gets.

use chrono::NaiveDate;

use vstd::prelude::*;

use crate::forms::CreateMeetingForm;
use crate::text::{chars_of, push_chars, string_of, string_push, trim, trim_chars};

verus! {

broadcast use vstd::string::group_string_axioms;

/// The name of the weekday of `date` that `chrono` gives when it reads `date`
/// as `%Y-%m-%d` and writes the day as `%A`; `None` when `date` does not read
/// as a date.
pub uninterp spec fn weekday_name_of(date: Seq<char>) -> Option<Seq<char>>;

/// Reads `date` with `chrono::NaiveDate::parse_from_str(date, "%Y-%m-%d")`
/// and, when it reads, writes its weekday with `format("%A")`. The contract
/// names the result and says nothing more of it.
#[verifier::external_body]
fn weekday_name(date: &str) -> (res: Option<String>)
    ensures
        opt_view(res) == weekday_name_of(date@),
{
    match NaiveDate::parse_from_str(date, "%Y-%m-%d") {
        Ok(d) => Some(d.format("%A").to_string()),
        Err(_) => None,
    }
}

/// An optional string taken as its characters.
pub open spec fn opt_view(o: Option<String>) -> Option<Seq<char>> {
    match o {
        Some(s) => Some(s@),
        None => None,
    }
}

/// The label of a slot: the custom label when one is given; otherwise the
/// weekday of the date (the date itself when it has none), followed by a space
/// and the time when a time is given.
pub open spec fn slot_label_text(
    custom: Seq<char>,
    date: Seq<char>,
    time: Seq<char>,
    weekday: Option<Seq<char>>,
) -> Seq<char> {
    if custom.len() > 0 {
        custom
    } else {
        let day = match weekday {
            Some(w) => w,
            None => date,
        };
        if time.len() == 0 {
            day
        } else {
            day + seq![' '] + time
        }
    }
}

/// The date-time of a slot: `<date>T<time>`, midnight when no time is given.
pub open spec fn slot_datetime_text(date: Seq<char>, time: Seq<char>) -> Seq<char> {
    if time.len() == 0 {
        date + "T00:00"@
    } else {
        date + seq!['T'] + time
    }
}

/// A slot's date-time is its date, `T`, then its time, or `00:00` when no time
/// is given; its label is the custom label when there is one, else the day
/// (the weekday, or the date when it has none) with the time after a space.
pub proof fn lemma_slot_text_layout(
    custom: Seq<char>,
    date: Seq<char>,
    time: Seq<char>,
    weekday: Option<Seq<char>>,
)
    ensures
        slot_datetime_text(date, time).take(date.len() as int) == date,
        slot_datetime_text(date, time)[date.len() as int] == 'T',
        time.len() > 0 ==> slot_datetime_text(date, time).skip(date.len() + 1int) == time,
        time.len() == 0 ==> slot_datetime_text(date, time).skip(date.len() + 1int) == "00:00"@,
        custom.len() > 0 ==> slot_label_text(custom, date, time, weekday) == custom,
        custom.len() == 0 && time.len() == 0 ==> slot_label_text(custom, date, time, weekday) == (
        match weekday {
            Some(w) => w,
            None => date,
        }),
        custom.len() == 0 && time.len() > 0 ==> slot_label_text(custom, date, time, weekday) == (
        match weekday {
            Some(w) => w,
            None => date,
        }) + seq![' '] + time,
{
    reveal_strlit("T00:00");
    reveal_strlit("00:00");
    let dt = slot_datetime_text(date, time);
    let n = date.len() as int;
    if time.len() == 0 {
        assert("T00:00"@ =~= seq!['T'] + "00:00"@);
        assert(dt =~= date + seq!['T'] + "00:00"@);
    }
    assert(dt.take(n) =~= date);
    assert(dt[n] == 'T');
    if time.len() > 0 {
        assert(dt.skip(n + 1) =~= time);
    } else {
        assert(dt.skip(n + 1) =~= "00:00"@);
    }
}

/// The label of a slot, given the weekday name of its date (`None` when the
/// date has none).
pub fn slot_label(custom: &str, date: &str, time: &str, weekday: Option<String>) -> (res: String)
    ensures
        res@ == slot_label_text(custom@, date@, time@, opt_view(weekday)),
{
    if !custom.is_empty() {
        return string_of(&chars_of(custom));
    }
    let mut res = match weekday {
        Some(w) => w,
        None => string_of(&chars_of(date)),
    };
    if !time.is_empty() {
        string_push(&mut res, ' ');
        push_chars(&mut res, &chars_of(time));
    }
    res
}

/// The date-time of a slot.
pub fn slot_datetime(date: &str, time: &str) -> (res: String)
    ensures
        res@ == slot_datetime_text(date@, time@),
{
    let mut res = string_of(&chars_of(date));
    if time.is_empty() {
        push_chars(&mut res, &chars_of("T00:00"));
    } else {
        string_push(&mut res, 'T');
        push_chars(&mut res, &chars_of(time));
    }
    res
}

/// A slot to be stored for a new meeting.
pub struct PlannedSlot {
    pub label: String,
    pub slot_dt: String,
}

/// The text at position `i` of a form field, empty past its end.
pub open spec fn field_at(v: Seq<String>, i: int) -> Seq<char> {
    if 0 <= i < v.len() {
        v[i]@
    } else {
        Seq::empty()
    }
}

/// The label and date-time of the slot on row `i` of the form.
pub open spec fn slot_at(form: CreateMeetingForm, i: int) -> (Seq<char>, Seq<char>) {
    let date = trim(field_at(form.slot_date@, i));
    let time = trim(field_at(form.slot_time@, i));
    let custom = trim(field_at(form.slot_label@, i));
    (slot_label_text(custom, date, time, weekday_name_of(date)), slot_datetime_text(date, time))
}

/// The slots of the first `n` rows of the form, in order; a row whose date is
/// blank gives no slot.
pub open spec fn slots_upto(form: CreateMeetingForm, n: int) -> Seq<(Seq<char>, Seq<char>)>
    decreases n,
{
    if n <= 0 {
        Seq::empty()
    } else {
        let prev = slots_upto(form, n - 1);
        if trim(field_at(form.slot_date@, n - 1)).len() == 0 {
            prev
        } else {
            prev.push(slot_at(form, n - 1))
        }
    }
}

/// Whether row `r` of the form has a date that is not blank.
pub open spec fn has_date(form: CreateMeetingForm, r: int) -> bool {
    trim(field_at(form.slot_date@, r)).len() > 0
}

/// The rows among the first `n` of the form that have a date, in row order.
pub open spec fn dated_rows(form: CreateMeetingForm, n: nat) -> Seq<int> {
    Seq::new(n, |r: int| r).filter(|r: int| has_date(form, r))
}

/// Every row with a date gives one slot, whatever the other rows hold (two
/// rows on the same day give two slots): the slots of the first `n` rows are,
/// in order, those of the rows that have a date, the `k`-th slot coming from
/// the `k`-th such row; rows with a blank date give none.
pub proof fn lemma_slots_follow_dated_rows(form: CreateMeetingForm, n: nat)
    ensures
        slots_upto(form, n as int) == dated_rows(form, n).map_values(|r: int| slot_at(form, r)),
        forall|r: int| 0 <= r < n && has_date(form, r) ==> #[trigger] dated_rows(form, n).contains(r),
        forall|k: int|
            0 <= k < dated_rows(form, n).len() ==> 0 <= #[trigger] dated_rows(form, n)[k] < n
                && has_date(form, dated_rows(form, n)[k]),
    decreases n,
{
    let ids = Seq::new(n, |r: int| r);
    let pred = |r: int| has_date(form, r);
    reveal(Seq::filter);
    if n > 0 {
        let m = (n - 1) as nat;
        lemma_slots_follow_dated_rows(form, m);
        assert(ids.drop_last() =~= Seq::new(m, |r: int| r));
        assert(ids.last() == n - 1);
        let before = dated_rows(form, m);
        if has_date(form, n - 1) {
            assert(dated_rows(form, n) == before.push(n - 1));
            assert(before.push(n - 1).map_values(|r: int| slot_at(form, r)) =~= before.map_values(
                |r: int| slot_at(form, r),
            ).push(slot_at(form, n - 1)));
        } else {
            assert(dated_rows(form, n) == before);
        }
    } else {
        assert(dated_rows(form, n) =~= Seq::<int>::empty());
        assert(dated_rows(form, n).map_values(|r: int| slot_at(form, r)) =~= Seq::<
            (Seq<char>, Seq<char>),
        >::empty());
    }
    assert forall|r: int| 0 <= r < n && has_date(form, r) implies #[trigger] dated_rows(
        form,
        n,
    ).contains(r) by {
        ids.lemma_filter_contains(pred, r);
        assert(ids[r] == r);
    }
    assert forall|k: int| 0 <= k < dated_rows(form, n).len() implies 0 <= #[trigger] dated_rows(
        form,
        n,
    )[k] < n && has_date(form, dated_rows(form, n)[k]) by {
        ids.lemma_filter_pred(pred, k);
        let x = dated_rows(form, n)[k];
        assert(ids.filter(pred).contains(x));
        ids.lemma_filter_contains_rev(pred, x);
    }
}

/// A planned slot taken as its label and date-time.
pub open spec fn planned_view(s: PlannedSlot) -> (Seq<char>, Seq<char>) {
    (s.label@, s.slot_dt@)
}

/// The trimmed text at position `i` of a form field, empty past its end.
fn trimmed_field(v: &Vec<String>, i: usize) -> (res: String)
    ensures
        res@ == trim(field_at(v@, i as int)),
{
    if i < v.len() {
        string_of(&trim_chars(&chars_of(v[i].as_str())))
    } else {
        let res = String::new();
        assert(trim(Seq::<char>::empty()) =~= Seq::<char>::empty());
        res
    }
}

/// The slots that a meeting-creation form asks for: one per row whose date is
/// not blank, in the order of the rows.
pub fn plan_time_slots(form: &CreateMeetingForm) -> (res: Vec<PlannedSlot>)
    ensures
        res@.map_values(|s: PlannedSlot| planned_view(s)) == slots_upto(
            *form,
            form.slot_date@.len() as int,
        ),
        res@.map_values(|s: PlannedSlot| planned_view(s)) == dated_rows(
            *form,
            form.slot_date@.len(),
        ).map_values(|r: int| slot_at(*form, r)),
{
    let mut res: Vec<PlannedSlot> = Vec::new();
    let mut i: usize = 0;
    while i < form.slot_date.len()
        invariant
            i <= form.slot_date@.len(),
            res@.map_values(|s: PlannedSlot| planned_view(s)) == slots_upto(*form, i as int),
        decreases form.slot_date@.len() - i,
    {
        let date = trimmed_field(&form.slot_date, i);
        if !date.as_str().is_empty() {
            let time = trimmed_field(&form.slot_time, i);
            let custom = trimmed_field(&form.slot_label, i);
            let weekday = if custom.as_str().is_empty() {
                weekday_name(date.as_str())
            } else {
                None
            };
            let label = slot_label(custom.as_str(), date.as_str(), time.as_str(), weekday);
            let slot_dt = slot_datetime(date.as_str(), time.as_str());
            let ghost prev = res@.map_values(|s: PlannedSlot| planned_view(s));
            res.push(PlannedSlot { label, slot_dt });
            assert(res@.map_values(|s: PlannedSlot| planned_view(s)) =~= prev.push(
                slot_at(*form, i as int),
            ));
        }
        i = i + 1;
    }
    proof {
        lemma_slots_follow_dated_rows(*form, form.slot_date@.len());
    }
    res
}

} // verus!
