//! Building a meeting page from the stored meeting, slots and answers.

use std::collections::HashSet;

use vstd::prelude::*;

use crate::models::{GridRow, Meeting, MeetingView, TimeSlot};

verus! {

broadcast use vstd::std_specs::hash::group_hash_axioms;

/// A stored answer: the participant and the ids of the slots they can attend.
pub struct ParticipantAnswer {
    pub id: i64,
    pub name: String,
    pub slot_ids: Vec<i64>,
}

/// Whether two slots share a label, so that dates must be shown to tell
/// slots apart.
pub open spec fn has_shared_label(slots: Seq<TimeSlot>) -> bool {
    exists|i: int, j: int|
        0 <= i < j < slots.len() && (#[trigger] slots[i]).label@ == (#[trigger] slots[j]).label@
}

/// Two slots share a label exactly when two different positions, in either
/// order and wherever they stand, hold the same label.
pub proof fn lemma_shared_label_any_pair(slots: Seq<TimeSlot>)
    ensures
        has_shared_label(slots) <==> exists|i: int, j: int|
            0 <= i < slots.len() && 0 <= j < slots.len() && i != j && (#[trigger] slots[i]).label@
                == (#[trigger] slots[j]).label@,
{
    if exists|i: int, j: int|
        0 <= i < slots.len() && 0 <= j < slots.len() && i != j && (#[trigger] slots[i]).label@ == (
        #[trigger] slots[j]).label@ {
        let (i, j) = choose|i: int, j: int|
            0 <= i < slots.len() && 0 <= j < slots.len() && i != j && (#[trigger] slots[i]).label@
                == (#[trigger] slots[j]).label@;
        if i < j {
            assert(0 <= i < j < slots.len() && slots[i].label@ == slots[j].label@);
        } else {
            assert(0 <= j < i < slots.len() && slots[j].label@ == slots[i].label@);
        }
    }
    if has_shared_label(slots) {
        let (i, j) = choose|i: int, j: int|
            0 <= i < j < slots.len() && (#[trigger] slots[i]).label@ == (#[trigger] slots[j]).label@;
        assert(0 <= i < slots.len() && 0 <= j < slots.len() && i != j && slots[i].label@
            == slots[j].label@);
    }
}

/// How many rows of `grid` can attend slot `i`.
pub open spec fn available_count(grid: Seq<GridRow>, i: int) -> nat
    decreases grid.len(),
{
    if grid.len() == 0 {
        0
    } else {
        available_count(grid.drop_last(), i) + if grid.last().availability@[i] {
            1nat
        } else {
            0nat
        }
    }
}

/// The count of a slot is the number of rows, among all rows, that can
/// attend it: each such row counts once and no other row counts.
pub proof fn lemma_available_count_rows(grid: Seq<GridRow>, i: int)
    ensures
        available_count(grid, i) == grid.filter(|r: GridRow| r.availability@[i]).len(),
        available_count(grid, i) <= grid.len(),
    decreases grid.len(),
{
    reveal(Seq::filter);
    if grid.len() > 0 {
        lemma_available_count_rows(grid.drop_last(), i);
    }
}

/// A slot as a page shows it: the stored slot, with dates shown or not.
pub open spec fn shown_slot(slot: TimeSlot, show_date: bool) -> TimeSlot {
    TimeSlot { show_date, ..slot }
}

/// The grid row of an answer over the given slots.
pub open spec fn row_matches(
    row: GridRow,
    answer: ParticipantAnswer,
    slots: Seq<TimeSlot>,
    editable: Set<i64>,
) -> bool {
    &&& row.participant_id == answer.id
    &&& row.participant_name@ == answer.name@
    &&& row.editable == editable.contains(answer.id)
    &&& row.availability@.len() == slots.len()
    &&& forall|i: int|
        0 <= i < slots.len() ==> #[trigger] row.availability@[i] == answer.slot_ids@.contains(
            slots[i].id,
        )
}

/// Whether `ids` holds `id`.
fn contains_id(ids: &Vec<i64>, id: i64) -> (res: bool)
    ensures
        res == ids@.contains(id),
{
    let mut i: usize = 0;
    while i < ids.len()
        invariant
            i <= ids@.len(),
            forall|j: int| 0 <= j < i ==> ids@[j] != id,
        decreases ids@.len() - i,
    {
        if ids[i] == id {
            assert(ids@[i as int] == id);
            return true;
        }
        i = i + 1;
    }
    false
}

/// Whether two of the slots share a label.
fn any_shared_label(slots: &Vec<TimeSlot>) -> (res: bool)
    ensures
        res == has_shared_label(slots@),
{
    let n = slots.len();
    let mut i: usize = 0;
    while i < n
        invariant
            n == slots@.len(),
            i <= n,
            forall|a: int, b: int|
                0 <= a < i && a < b < n ==> (#[trigger] slots@[a]).label@ != (#[trigger] slots@[
                    b
                ]).label@,
        decreases n - i,
    {
        let mut j: usize = i + 1;
        while j < n
            invariant
                n == slots@.len(),
                i < n,
                i + 1 <= j <= n,
                forall|b: int| i < b < j ==> slots@[i as int].label@ != (#[trigger] slots@[b]).label@,
            decreases n - j,
        {
            if slots[i].label == slots[j].label {
                return true;
            }
            j = j + 1;
        }
        i = i + 1;
    }
    false
}

/// The meeting page: the slots with dates shown on all of them when any two
/// share a label, one grid row per answer in the given order, and per slot the
/// number of rows that can attend it.
pub fn build_meeting_view(
    meeting: Meeting,
    slots: Vec<TimeSlot>,
    answers: Vec<ParticipantAnswer>,
    editable_ids: &HashSet<i64>,
) -> (res: MeetingView)
    ensures
        res.meeting == meeting,
        res.slots@.len() == slots@.len(),
        forall|i: int|
            0 <= i < slots@.len() ==> #[trigger] res.slots@[i] == shown_slot(
                slots@[i],
                has_shared_label(slots@),
            ),
        forall|i: int|
            0 <= i < slots@.len() ==> ((#[trigger] res.slots@[i]).show_date <==> exists|a: int, b: int|
                0 <= a < slots@.len() && 0 <= b < slots@.len() && a != b && (
                #[trigger] slots@[a]).label@ == (#[trigger] slots@[b]).label@),
        res.grid@.len() == answers@.len(),
        forall|r: int|
            0 <= r < answers@.len() ==> row_matches(
                #[trigger] res.grid@[r],
                answers@[r],
                slots@,
                editable_ids@,
            ),
        forall|r: int|
            0 <= r < answers@.len() ==> (#[trigger] res.grid@[r]).participant_id == answers@[r].id
                && res.grid@[r].participant_name@ == answers@[r].name@ && res.grid@[r].editable
                == editable_ids@.contains(answers@[r].id),
        forall|r: int, i: int|
            0 <= r < answers@.len() && 0 <= i < slots@.len() ==> (#[trigger] res.grid@[r].availability@[i]
                <==> answers@[r].slot_ids@.contains(slots@[i].id)),
        res.slot_counts@.len() == slots@.len(),
        forall|i: int|
            0 <= i < slots@.len() ==> #[trigger] res.slot_counts@[i] as int == res.grid@.filter(
                |row: GridRow| row.availability@[i],
            ).len(),
        forall|i: int|
            0 <= i < slots@.len() ==> #[trigger] res.slot_counts@[i] as int == available_count(
                res.grid@,
                i,
            ),
        forall|i: int| 0 <= i < slots@.len() ==> #[trigger] res.slot_counts@[i] <= answers@.len(),
{
    let shared = any_shared_label(&slots);
    let n = slots.len();
    let mut shown: Vec<TimeSlot> = Vec::new();
    let mut i: usize = 0;
    while i < n
        invariant
            n == slots@.len(),
            i <= n,
            shown@.len() == i,
            forall|k: int| 0 <= k < i ==> #[trigger] shown@[k] == shown_slot(slots@[k], shared),
        decreases n - i,
    {
        let s = &slots[i];
        shown.push(
            TimeSlot {
                id: s.id,
                meeting_id: s.meeting_id.clone(),
                label: s.label.clone(),
                slot_dt: s.slot_dt.clone(),
                show_date: shared,
            },
        );
        i = i + 1;
    }
    let mut grid: Vec<GridRow> = Vec::new();
    let mut r: usize = 0;
    while r < answers.len()
        invariant
            n == slots@.len(),
            r <= answers@.len(),
            grid@.len() == r,
            forall|q: int|
                0 <= q < r ==> row_matches(#[trigger] grid@[q], answers@[q], slots@, editable_ids@),
        decreases answers@.len() - r,
    {
        let a = &answers[r];
        let mut availability: Vec<bool> = Vec::new();
        let mut k: usize = 0;
        while k < n
            invariant
                n == slots@.len(),
                k <= n,
                a == answers@[r as int],
                availability@.len() == k,
                forall|m: int|
                    0 <= m < k ==> #[trigger] availability@[m] == a.slot_ids@.contains(slots@[m].id),
            decreases n - k,
        {
            availability.push(contains_id(&a.slot_ids, slots[k].id));
            k = k + 1;
        }
        let editable = editable_ids.contains(&a.id);
        grid.push(
            GridRow {
                participant_id: a.id,
                participant_name: a.name.clone(),
                availability,
                editable,
            },
        );
        r = r + 1;
    }
    let mut slot_counts: Vec<usize> = Vec::new();
    let mut i: usize = 0;
    while i < n
        invariant
            n == slots@.len(),
            i <= n,
            grid@.len() == answers@.len(),
            forall|q: int| 0 <= q < grid@.len() ==> (#[trigger] grid@[q]).availability@.len() == n,
            slot_counts@.len() == i,
            forall|k: int|
                0 <= k < i ==> #[trigger] slot_counts@[k] as int == available_count(grid@, k),
            forall|k: int| 0 <= k < i ==> #[trigger] slot_counts@[k] <= grid@.len(),
        decreases n - i,
    {
        let mut count: usize = 0;
        let mut q: usize = 0;
        while q < grid.len()
            invariant
                n == slots@.len(),
                i < n,
                q <= grid@.len(),
                forall|x: int| 0 <= x < grid@.len() ==> (#[trigger] grid@[x]).availability@.len() == n,
                count as int == available_count(grid@.take(q as int), i as int),
                count <= q,
            decreases grid@.len() - q,
        {
            assert(grid@.take(q + 1).drop_last() =~= grid@.take(q as int));
            assert(grid@.take(q + 1).last() == grid@[q as int]);
            if grid[q].availability[i] {
                count = count + 1;
            }
            q = q + 1;
        }
        assert(grid@.take(grid@.len() as int) =~= grid@);
        slot_counts.push(count);
        i = i + 1;
    }
    proof {
        lemma_shared_label_any_pair(slots@);
        assert forall|i: int| 0 <= i < slots@.len() implies #[trigger] slot_counts@[i] as int
            == grid@.filter(|row: GridRow| row.availability@[i]).len() by {
            lemma_available_count_rows(grid@, i);
        }
        assert forall|r: int, i: int|
            0 <= r < answers@.len() && 0 <= i < slots@.len() implies (
            #[trigger] grid@[r].availability@[i] <==> answers@[r].slot_ids@.contains(
                slots@[i].id,
            )) by {
            assert(row_matches(grid@[r], answers@[r], slots@, editable_ids@));
        }
    }
    MeetingView { meeting, slots: shown, grid, slot_counts }
}

} // verus!
