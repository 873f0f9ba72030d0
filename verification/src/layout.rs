//! The cells of a schedule sheet: a header row, then for every time slot a
//! heading row and one row per minisymposium, and at the end the
//! minisymposia left unscheduled.
use vstd::prelude::*;
use crate::analysis::concat;
use crate::counts::total_entries;
use crate::model::{Minisymposium, slots};
use crate::moves::{occurrences, occ_upto};
use crate::preprocess::{join_spec, join_strings, views};
use crate::text::{i32_text, int_text, nat_digits, parse_i32, parse_i32_spec, usize_text};

verus! {

// ===========================================================================
// Cells
// ===========================================================================

/// How a cell is formatted.
#[derive(Clone, Copy, Debug, PartialEq, Eq, Structural)]
pub enum CellStyle {
    /// The column headers.
    Header,
    /// The heading row of a time slot.
    SessionHeader,
    /// Room numbers and ids.
    Id,
    /// Titles and lists of names.
    Title,
    /// No particular format.
    Plain,
    /// The heading of the unscheduled minisymposia.
    Alert,
}

/// What a cell holds.
#[derive(Clone, Debug)]
pub enum CellValue {
    Text(String),
    Number(i64),
}

/// One cell of the sheet.
#[derive(Clone, Debug)]
pub struct SheetCell {
    pub row: u32,
    pub col: u16,
    pub value: CellValue,
    pub style: CellStyle,
}

/// What a cell holds, as values.
pub enum ValueView {
    Text(Seq<char>),
    Number(int),
}

/// A cell as values: row, column, content and format.
pub type CellView = (int, int, ValueView, CellStyle);

/// The values of a cell.
pub open spec fn cell_view(c: SheetCell) -> CellView {
    (
        c.row as int,
        c.col as int,
        match c.value {
            CellValue::Text(s) => ValueView::Text(s@),
            CellValue::Number(n) => ValueView::Number(n as int),
        },
        c.style,
    )
}

/// The values of a list of cells.
pub open spec fn cells_view(cs: Seq<SheetCell>) -> Seq<CellView> {
    cs.map_values(|c: SheetCell| cell_view(c))
}

/// A text cell.
pub open spec fn text_cell(row: int, col: int, t: Seq<char>, style: CellStyle) -> CellView {
    (row, col, ValueView::Text(t), style)
}

fn text(row: u32, col: u16, t: String, style: CellStyle) -> (c: SheetCell)
    ensures
        cell_view(c) == text_cell(row as int, col as int, t@, style),
{
    SheetCell { row, col, value: CellValue::Text(t), style }
}

fn number(row: u32, col: u16, n: i64, style: CellStyle) -> (c: SheetCell)
    ensures
        cell_view(c) == (row as int, col as int, ValueView::Number(n as int), style),
{
    SheetCell { row, col, value: CellValue::Number(n), style }
}

/// The column headers, in row 0.
pub open spec fn header_cells() -> Seq<CellView> {
    seq![
        text_cell(0, 0, "Session"@, CellStyle::Header),
        text_cell(0, 1, "Room"@, CellStyle::Header),
        text_cell(0, 2, "ID"@, CellStyle::Header),
        text_cell(0, 3, "Title"@, CellStyle::Header),
        text_cell(0, 4, "Classification"@, CellStyle::Header),
        text_cell(0, 5, "Organizers"@, CellStyle::Header),
        text_cell(0, 6, "Speakers"@, CellStyle::Header),
        text_cell(0, 7, "Notes"@, CellStyle::Header),
    ]
}

fn push_header(out: &mut Vec<SheetCell>)
    ensures
        cells_view(final(out)@) == cells_view(old(out)@) + header_cells(),
{
    let ghost start = cells_view(out@);
    out.push(text(0, 0, "Session".to_owned(), CellStyle::Header));
    out.push(text(0, 1, "Room".to_owned(), CellStyle::Header));
    out.push(text(0, 2, "ID".to_owned(), CellStyle::Header));
    out.push(text(0, 3, "Title".to_owned(), CellStyle::Header));
    out.push(text(0, 4, "Classification".to_owned(), CellStyle::Header));
    out.push(text(0, 5, "Organizers".to_owned(), CellStyle::Header));
    out.push(text(0, 6, "Speakers".to_owned(), CellStyle::Header));
    out.push(text(0, 7, "Notes".to_owned(), CellStyle::Header));
    assert(cells_view(out@) =~= start + header_cells());
}

// ===========================================================================
// The schedule
// ===========================================================================

/// The name of time slot `s` on the sheet.
pub open spec fn slot_name(s: int) -> Seq<char> {
    if s == 0 {
        "TUE First Period"@
    } else if s == 1 {
        "TUE Second Period"@
    } else if s == 2 {
        "WED First Period"@
    } else if s == 3 {
        "WED Second Period"@
    } else if s == 4 {
        "THU First Period"@
    } else if s == 5 {
        "THU Second Period"@
    } else if s == 6 {
        "FRI First Period"@
    } else if s == 7 {
        "FRI Second Period"@
    } else {
        "SESSION"@
    }
}

fn slot_name_exec(s: usize) -> (r: &'static str)
    ensures
        r@ == slot_name(s as int),
{
    if s == 0 {
        "TUE First Period"
    } else if s == 1 {
        "TUE Second Period"
    } else if s == 2 {
        "WED First Period"
    } else if s == 3 {
        "WED Second Period"
    } else if s == 4 {
        "THU First Period"
    } else if s == 5 {
        "THU Second Period"
    } else if s == 6 {
        "FRI First Period"
    } else if s == 7 {
        "FRI Second Period"
    } else {
        "SESSION"
    }
}

/// The codes written as decimal texts.
pub open spec fn code_texts(codes: Seq<i32>) -> Seq<Seq<char>> {
    codes.map_values(|c: i32| int_text(c as int))
}

/// The row of minisymposium `m` in room `room` of the slot named `name`:
/// slot name, room number (from 1), id (`CL-` and the id for a group of
/// contributed lectures), title, codes joined with `; `, organizers (none
/// for a group of contributed lectures), speakers, notes.
pub open spec fn entry_cells(m: Minisymposium, name: Seq<char>, room: int, row: int) -> Seq<CellView> {
    seq![
        text_cell(row, 0, name, CellStyle::Plain),
        (row, 1, ValueView::Number(((room + 1) as u32) as int), CellStyle::Id),
        if m.is_cl_minisymposium {
            text_cell(row, 2, "CL-"@ + int_text(m.id as int), CellStyle::Id)
        } else {
            (row, 2, ValueView::Number(m.id as int), CellStyle::Id)
        },
        text_cell(row, 3, m.title@, CellStyle::Title),
        text_cell(row, 4, join_spec(code_texts(m.classification@), "; "@), CellStyle::Plain),
        text_cell(
            row,
            5,
            if m.is_cl_minisymposium {
                Seq::empty()
            } else {
                join_spec(views(m.organizers@), ", "@)
            },
            CellStyle::Title,
        ),
        text_cell(row, 6, join_spec(views(m.speakers@), ", "@), CellStyle::Title),
        text_cell(row, 7, m.notes@, CellStyle::Title),
    ]
}

/// The rooms among the first `end` of a slot that hold a minisymposium
/// (entries that are not valid indices are skipped).
pub open spec fn valid_upto(ms: Seq<Minisymposium>, slot: Seq<usize>, end: nat) -> nat
    decreases end,
{
    if end == 0 {
        0
    } else {
        valid_upto(ms, slot, (end - 1) as nat) + if slot[end - 1] < ms.len() {
            1nat
        } else {
            0nat
        }
    }
}

/// The cells of a non-empty slot starting at row `start`: its heading row,
/// then the rows of the minisymposia in its first `end` rooms.
pub open spec fn slot_cells(ms: Seq<Minisymposium>, slot: Seq<usize>, s: int, start: int, end: nat) -> Seq<CellView>
    decreases end,
{
    if end == 0 {
        seq![
            text_cell(start, 0, slot_name(s), CellStyle::SessionHeader),
            text_cell(start, 1, "("@ + nat_digits(slot.len()) + " rooms)"@, CellStyle::SessionHeader),
        ]
    } else {
        let prev = slot_cells(ms, slot, s, start, (end - 1) as nat);
        let k = end - 1;
        if slot[k] < ms.len() {
            prev + entry_cells(ms[slot[k] as int], slot_name(s), k, start + 1 + valid_upto(ms, slot, k as nat))
        } else {
            prev
        }
    }
}

/// The cells of the first `end` slots, starting at row `start`, and the row
/// after them: each non-empty slot takes its heading row, its rows, and a
/// blank row.
pub open spec fn slots_cells(ms: Seq<Minisymposium>, sched: Seq<Seq<usize>>, start: int, end: nat) -> (Seq<CellView>, int)
    decreases end,
{
    if end == 0 {
        (Seq::empty(), start)
    } else {
        let prev = slots_cells(ms, sched, start, (end - 1) as nat);
        let s = end - 1;
        let slot = sched[s];
        if slot.len() == 0 {
            prev
        } else {
            (
                prev.0 + slot_cells(ms, slot, s, prev.1, slot.len()),
                prev.1 + 1 + valid_upto(ms, slot, slot.len()) + 1,
            )
        }
    }
}

/// The minisymposia among the first `end` that the schedule does not hold.
pub open spec fn unscheduled_upto(ms: Seq<Minisymposium>, sched: Seq<Seq<usize>>, end: nat) -> Seq<int>
    decreases end,
{
    if end == 0 {
        Seq::empty()
    } else {
        let prev = unscheduled_upto(ms, sched, (end - 1) as nat);
        if occurrences(sched, (end - 1) as usize) == 0 {
            prev.push(end - 1)
        } else {
            prev
        }
    }
}

/// The cells of the unscheduled minisymposia `u` after row `start`: a
/// blank row, the heading, then one row each with id and title.
pub open spec fn unscheduled_cells(ms: Seq<Minisymposium>, u: Seq<int>, start: int) -> Seq<CellView> {
    if u.len() == 0 {
        Seq::empty()
    } else {
        seq![text_cell(start + 1, 0, "UNSCHEDULED ("@ + nat_digits(u.len()) + " sessions)"@, CellStyle::Alert)]
            + unscheduled_rows(ms, u, start + 2, u.len())
    }
}

/// The rows of the first `end` unscheduled minisymposia, from row `start`.
pub open spec fn unscheduled_rows(ms: Seq<Minisymposium>, u: Seq<int>, start: int, end: nat) -> Seq<CellView>
    decreases end,
{
    if end == 0 {
        Seq::empty()
    } else {
        let k = end - 1;
        unscheduled_rows(ms, u, start, k as nat) + seq![
            (start + k, 2, ValueView::Number(ms[u[k]].id as int), CellStyle::Id),
            text_cell(start + k, 3, ms[u[k]].title@, CellStyle::Title),
        ]
    }
}

/// All cells of the schedule sheet.
pub open spec fn schedule_sheet_cells(ms: Seq<Minisymposium>, sched: Seq<Seq<usize>>) -> Seq<CellView> {
    let body = slots_cells(ms, sched, 1, sched.len());
    header_cells() + body.0 + unscheduled_cells(ms, unscheduled_upto(ms, sched, ms.len()), body.1)
}

/// The row after the last one the sheet uses (blank rows counted).
pub open spec fn schedule_sheet_end(ms: Seq<Minisymposium>, sched: Seq<Seq<usize>>) -> int {
    let body = slots_cells(ms, sched, 1, sched.len());
    let u = unscheduled_upto(ms, sched, ms.len());
    if u.len() > 0 {
        body.1 + 2 + u.len()
    } else {
        body.1
    }
}

proof fn lemma_slots_mono(ms: Seq<Minisymposium>, sched: Seq<Seq<usize>>, start: int, a: nat, b: nat)
    requires
        a <= b <= sched.len(),
    ensures
        slots_cells(ms, sched, start, a).1 <= slots_cells(ms, sched, start, b).1,
    decreases b,
{
    if a < b {
        lemma_slots_mono(ms, sched, start, a, (b - 1) as nat);
    }
}

proof fn lemma_unscheduled_bound(ms: Seq<Minisymposium>, sched: Seq<Seq<usize>>, end: nat)
    ensures
        unscheduled_upto(ms, sched, end).len() <= end,
        forall|k: int| 0 <= k < unscheduled_upto(ms, sched, end).len() ==> 0 <= #[trigger] unscheduled_upto(ms, sched, end)[k] < end,
    decreases end,
{
    if end > 0 {
        lemma_unscheduled_bound(ms, sched, (end - 1) as nat);
    }
}

proof fn lemma_valid_upto_bound(ms: Seq<Minisymposium>, slot: Seq<usize>, end: nat)
    ensures
        valid_upto(ms, slot, end) <= end,
    decreases end,
{
    if end > 0 {
        lemma_valid_upto_bound(ms, slot, (end - 1) as nat);
    }
}

proof fn lemma_slots_rows(ms: Seq<Minisymposium>, sched: Seq<Seq<usize>>, start: int, end: nat)
    requires
        end <= sched.len(),
    ensures
        start <= slots_cells(ms, sched, start, end).1 <= start + crate::counts::entries(sched, end) + 2 * end,
    decreases end,
{
    if end > 0 {
        lemma_slots_rows(ms, sched, start, (end - 1) as nat);
        let s = end - 1;
        lemma_valid_upto_bound(ms, sched[s], sched[s].len());
    }
}

/// The cells of one minisymposium's row.
fn push_entry(out: &mut Vec<SheetCell>, m: &Minisymposium, name: &str, room: usize, row: u32)
    requires
        room < usize::MAX,
    ensures
        cells_view(final(out)@) == cells_view(old(out)@) + entry_cells(*m, name@, room as int, row as int),
{
    let ghost start = cells_view(out@);
    out.push(text(row, 0, name.to_owned(), CellStyle::Plain));
    out.push(number(row, 1, ((room + 1) as u32) as i64, CellStyle::Id));
    if m.is_cl_minisymposium {
        out.push(text(row, 2, concat("CL-", i32_text(m.id).as_str()), CellStyle::Id));
    } else {
        out.push(number(row, 2, m.id as i64, CellStyle::Id));
    }
    out.push(text(row, 3, m.title.clone(), CellStyle::Title));
    let mut code_strs: Vec<String> = Vec::new();
    let mut i: usize = 0;
    while i < m.classification.len()
        invariant
            i <= m.classification@.len(),
            views(code_strs@) == code_texts(m.classification@.take(i as int)),
        decreases m.classification.len() - i,
    {
        let ghost prev = code_strs@;
        code_strs.push(i32_text(m.classification[i]));
        assert(views(code_strs@) =~= views(prev).push(int_text(m.classification@[i as int] as int)));
        i = i + 1;
        assert(views(code_strs@) =~= code_texts(m.classification@.take(i as int)));
    }
    assert(m.classification@.take(i as int) =~= m.classification@);
    out.push(text(row, 4, join_strings(&code_strs, "; "), CellStyle::Plain));
    let organizers = if m.is_cl_minisymposium {
        String::new()
    } else {
        join_strings(&m.organizers, ", ")
    };
    out.push(text(row, 5, organizers, CellStyle::Title));
    out.push(text(row, 6, join_strings(&m.speakers, ", "), CellStyle::Title));
    out.push(text(row, 7, m.notes.clone(), CellStyle::Title));
    assert(cells_view(out@) =~= start + entry_cells(*m, name@, room as int, row as int));
}

/// The cells of the schedule sheet: the column headers in row 0; for every
/// non-empty time slot, in order, a heading row (slot name and room count),
/// one row per minisymposium it holds and a blank row; then, when some
/// minisymposia are not scheduled, a blank row, a heading with their
/// number and one row each with id and title.
pub fn schedule_sheet(schedule: &Vec<Vec<usize>>, all_sessions: &[Minisymposium]) -> (r: Vec<SheetCell>)
    requires
        schedule_sheet_end(all_sessions@, slots(schedule@)) <= u32::MAX,
    ensures
        cells_view(r@) == schedule_sheet_cells(all_sessions@, slots(schedule@)),
{
    let ghost ms = all_sessions@;
    let ghost sched = slots(schedule@);
    let mut out: Vec<SheetCell> = Vec::new();
    push_header(&mut out);
    let mut row: u32 = 1;
    let mut s: usize = 0;
    proof {
        lemma_slots_rows(ms, sched, 1, sched.len());
    }
    while s < schedule.len()
        invariant
            ms == all_sessions@,
            sched == slots(schedule@),
            s <= sched.len(),
            slots_cells(ms, sched, 1, sched.len()).1 <= u32::MAX,
            row as int == slots_cells(ms, sched, 1, s as nat).1,
            cells_view(out@) == Seq::<CellView>::empty() + header_cells() + slots_cells(ms, sched, 1, s as nat).0,
        decreases schedule.len() - s,
    {
        let slot = &schedule[s];
        assert(slot@ == sched[s as int]);
        proof {
            lemma_slots_mono(ms, sched, 1, (s + 1) as nat, sched.len());
            lemma_valid_upto_bound(ms, slot@, slot@.len());
        }
        if slot.len() > 0 {
            let name = slot_name_exec(s);
            let ghost before = cells_view(out@);
            let ghost start_row = row as int;
            out.push(text(row, 0, name.to_owned(), CellStyle::SessionHeader));
            let a = concat("(", usize_text(slot.len()).as_str());
            out.push(text(row, 1, concat(a.as_str(), " rooms)"), CellStyle::SessionHeader));
            assert(cells_view(out@) =~= before + slot_cells(ms, slot@, s as int, start_row, 0));
            let mut next: u32 = row + 1;
            let mut k: usize = 0;
            while k < slot.len()
                invariant
                    ms == all_sessions@,
                    sched == slots(schedule@),
                    s < sched.len(),
                    slot@ == sched[s as int],
                    name@ == slot_name(s as int),
                    k <= slot@.len(),
                    next as int == start_row + 1 + valid_upto(ms, slot@, k as nat),
                    start_row + 1 + valid_upto(ms, slot@, slot@.len()) + 1 <= u32::MAX,
                    cells_view(out@) == before + slot_cells(ms, slot@, s as int, start_row, k as nat),
                decreases slot.len() - k,
            {
                proof {
                    lemma_valid_prefix_mono(ms, slot@, (k + 1) as nat, slot@.len());
                }
                let idx = slot[k];
                if idx < all_sessions.len() {
                    push_entry(&mut out, &all_sessions[idx], name, k, next);
                    next = next + 1;
                }
                k = k + 1;
            }
            row = next + 1;
            assert(cells_view(out@) =~= Seq::<CellView>::empty() + header_cells() + slots_cells(ms, sched, 1, (s + 1) as nat).0);
        } else {
            assert(slots_cells(ms, sched, 1, (s + 1) as nat) == slots_cells(ms, sched, 1, s as nat));
        }
        s = s + 1;
    }
    let ghost body_end = row as int;
    assert(body_end == slots_cells(ms, sched, 1, sched.len()).1);
    let mut unscheduled: Vec<usize> = Vec::new();
    let mut i: usize = 0;
    while i < all_sessions.len()
        invariant
            ms == all_sessions@,
            sched == slots(schedule@),
            i <= ms.len(),
            unscheduled@.len() <= i,
            unscheduled@.map_values(|x: usize| x as int) == unscheduled_upto(ms, sched, i as nat),
            forall|k: int| 0 <= k < unscheduled@.len() ==> #[trigger] unscheduled@[k] < ms.len(),
        decreases all_sessions.len() - i,
    {
        let held = holds_entry(schedule, i);
        if !held {
            let ghost prev = unscheduled@;
            unscheduled.push(i);
            assert(unscheduled@.map_values(|x: usize| x as int) =~= prev.map_values(|x: usize| x as int).push(i as int));
        }
        i = i + 1;
    }
    let ghost u = unscheduled_upto(ms, sched, ms.len());
    assert(cells_view(out@) =~= header_cells() + slots_cells(ms, sched, 1, sched.len()).0);
    assert(unscheduled@.len() == u.len());
    if unscheduled.len() > 0 {
        let ghost before = cells_view(out@);
        let a = concat("UNSCHEDULED (", usize_text(unscheduled.len()).as_str());
        out.push(text(row + 1, 0, concat(a.as_str(), " sessions)"), CellStyle::Alert));
        let mut r: u32 = row + 2;
        let mut k: usize = 0;
        while k < unscheduled.len()
            invariant
                ms == all_sessions@,
                k <= unscheduled@.len(),
                unscheduled@.map_values(|x: usize| x as int) == u,
                forall|j: int| 0 <= j < unscheduled@.len() ==> #[trigger] unscheduled@[j] < ms.len(),
                r as int == body_end + 2 + k,
                body_end + 2 + unscheduled@.len() <= u32::MAX,
                cells_view(out@) == before + seq![
                    text_cell(body_end + 1, 0, "UNSCHEDULED ("@ + nat_digits(u.len()) + " sessions)"@, CellStyle::Alert),
                ] + unscheduled_rows(ms, u, body_end + 2, k as nat),
            decreases unscheduled.len() - k,
        {
            let m = &all_sessions[unscheduled[k]];
            assert(u[k as int] == unscheduled@[k as int] as int);
            let ghost prev = cells_view(out@);
            out.push(number(r, 2, m.id as i64, CellStyle::Id));
            out.push(text(r, 3, m.title.clone(), CellStyle::Title));
            assert(cells_view(out@) =~= prev + seq![
                (body_end + 2 + k, 2, ValueView::Number(ms[u[k as int]].id as int), CellStyle::Id),
                text_cell(body_end + 2 + k, 3, ms[u[k as int]].title@, CellStyle::Title),
            ]);
            r = r + 1;
            k = k + 1;
        }
    }
    out
}

proof fn lemma_valid_prefix_mono(ms: Seq<Minisymposium>, slot: Seq<usize>, a: nat, b: nat)
    requires
        a <= b,
    ensures
        valid_upto(ms, slot, a) <= valid_upto(ms, slot, b),
    decreases b,
{
    if a < b {
        lemma_valid_prefix_mono(ms, slot, a, (b - 1) as nat);
    }
}

/// Whether some slot holds `x`.
fn holds_entry(schedule: &Vec<Vec<usize>>, x: usize) -> (r: bool)
    ensures
        r == (occurrences(slots(schedule@), x) != 0),
{
    let ghost sched = slots(schedule@);
    let mut s: usize = 0;
    while s < schedule.len()
        invariant
            sched == slots(schedule@),
            s <= sched.len(),
            occ_upto(sched, x, s as nat) == 0,
        decreases schedule.len() - s,
    {
        let mut k: usize = 0;
        while k < schedule[s].len()
            invariant
                sched == slots(schedule@),
                s < sched.len(),
                k <= sched[s as int].len(),
                forall|j: int| 0 <= j < k ==> sched[s as int][j] != x,
            decreases schedule@[s as int]@.len() - k,
        {
            if schedule[s][k] == x {
                proof {
                    lemma_occ_positive(sched, x, s as nat, k as int);
                }
                return true;
            }
            k = k + 1;
        }
        proof {
            lemma_slot_count_zero(sched[s as int], x);
        }
        s = s + 1;
    }
    false
}

proof fn lemma_slot_count_zero(slot: Seq<usize>, x: usize)
    requires
        forall|j: int| 0 <= j < slot.len() ==> slot[j] != x,
    ensures
        slot.to_multiset().count(x) == 0,
{
    broadcast use vstd::seq_lib::group_to_multiset_ensures;

    if slot.to_multiset().count(x) > 0 {
        assert(slot.contains(x));
    }
}

proof fn lemma_occ_positive(sched: Seq<Seq<usize>>, x: usize, s: nat, k: int)
    requires
        s < sched.len(),
        0 <= k < sched[s as int].len(),
        sched[s as int][k] == x,
    ensures
        occurrences(sched, x) != 0,
{
    broadcast use vstd::seq_lib::group_to_multiset_ensures;

    assert(sched[s as int].contains(x));
    lemma_occ_ge(sched, x, s, sched.len());
}

proof fn lemma_occ_ge(sched: Seq<Seq<usize>>, x: usize, s: nat, end: nat)
    requires
        s < end <= sched.len(),
    ensures
        occ_upto(sched, x, end) >= sched[s as int].to_multiset().count(x),
    decreases end,
{
    if end - 1 > s {
        lemma_occ_ge(sched, x, s, (end - 1) as nat);
    }
    lemma_occ_nonneg(sched, x, (end - 1) as nat);
}

proof fn lemma_occ_nonneg(sched: Seq<Seq<usize>>, x: usize, end: nat)
    requires
        end <= sched.len(),
    ensures
        occ_upto(sched, x, end) >= 0,
    decreases end,
{
    if end > 0 {
        lemma_occ_nonneg(sched, x, (end - 1) as nat);
    }
}


// ===========================================================================
// A schedule sent back from the web page
// ===========================================================================

/// One scheduled session as the web page sends it back: each field as text.
#[derive(Clone, Debug)]
pub struct SessionEntry {
    pub session: String,
    pub room: String,
    pub id: String,
    pub title: String,
    pub classification: String,
    pub organizers: String,
    pub speakers: String,
    pub notes: String,
}

/// The key rooms are ordered by: the room read as an `i32`, or 9999 when it
/// does not read as one.
pub open spec fn room_key(e: SessionEntry) -> int {
    match parse_i32_spec(e.room@) {
        Some(v) => v,
        None => 9999,
    }
}

/// The positions among the first `end` entries that are sessions held in
/// the period `name`, in order.
pub open spec fn period_members(entries: Seq<Option<SessionEntry>>, name: Seq<char>, end: nat) -> Seq<int>
    decreases end,
{
    if end == 0 {
        Seq::empty()
    } else {
        let prev = period_members(entries, name, (end - 1) as nat);
        match entries[end - 1] {
            Some(e) => if e.session@ == name {
                prev.push(end - 1)
            } else {
                prev
            },
            None => prev,
        }
    }
}

/// Where position `x` goes among positions sorted by room key: after every
/// one whose key is not larger.
pub open spec fn room_ins_point(entries: Seq<Option<SessionEntry>>, t: Seq<int>, x: int) -> int
    decreases t.len(),
{
    if t.len() == 0 {
        0
    } else if room_key(entries[t.last()]->0) <= room_key(entries[x]->0) {
        t.len() as int
    } else {
        room_ins_point(entries, t.drop_last(), x)
    }
}

/// The positions sorted by room key; equal keys keep their order.
pub open spec fn sort_by_room(entries: Seq<Option<SessionEntry>>, g: Seq<int>) -> Seq<int>
    decreases g.len(),
{
    if g.len() == 0 {
        g
    } else {
        let t = sort_by_room(entries, g.drop_last());
        t.insert(room_ins_point(entries, t, g.last()), g.last())
    }
}

/// The row of entry `e` in the period `name`.
pub open spec fn session_entry_cells(e: SessionEntry, name: Seq<char>, row: int) -> Seq<CellView> {
    seq![
        text_cell(row, 0, name, CellStyle::Plain),
        text_cell(row, 1, e.room@, CellStyle::Id),
        text_cell(row, 2, e.id@, CellStyle::Id),
        text_cell(row, 3, e.title@, CellStyle::Title),
        text_cell(row, 4, e.classification@, CellStyle::Plain),
        text_cell(row, 5, e.organizers@, CellStyle::Title),
        text_cell(row, 6, e.speakers@, CellStyle::Title),
        text_cell(row, 7, e.notes@, CellStyle::Title),
    ]
}

/// The rows of the first `end` positions of `g`, from row `start`.
pub open spec fn group_rows(entries: Seq<Option<SessionEntry>>, g: Seq<int>, name: Seq<char>, start: int, end: nat) -> Seq<CellView>
    decreases end,
{
    if end == 0 {
        Seq::empty()
    } else {
        group_rows(entries, g, name, start, (end - 1) as nat) + session_entry_cells(
            entries[g[end - 1]]->0,
            name,
            start + end - 1,
        )
    }
}

/// The cells of the first `end` periods, in chronological order, from row
/// `start`, and the row after them: each period with sessions takes a
/// heading row, its sessions by room, and a blank row.
pub open spec fn periods_cells(entries: Seq<Option<SessionEntry>>, start: int, end: nat) -> (Seq<CellView>, int)
    decreases end,
{
    if end == 0 {
        (Seq::empty(), start)
    } else {
        let prev = periods_cells(entries, start, (end - 1) as nat);
        let name = slot_name(end - 1);
        let g = sort_by_room(entries, period_members(entries, name, entries.len()));
        if g.len() == 0 {
            prev
        } else {
            (
                prev.0 + seq![
                    text_cell(prev.1, 0, name, CellStyle::SessionHeader),
                    text_cell(prev.1, 1, "("@ + nat_digits(g.len()) + " rooms)"@, CellStyle::SessionHeader),
                ] + group_rows(entries, g, name, prev.1 + 1, g.len()),
                prev.1 + 1 + g.len() + 1,
            )
        }
    }
}

/// All cells of a sheet written from entries sent back by the web page
/// (`None` for an item that is not a session record).
pub open spec fn entries_sheet_cells(entries: Seq<Option<SessionEntry>>) -> Seq<CellView> {
    header_cells() + periods_cells(entries, 1, 8).0
}

proof fn lemma_members_bound(entries: Seq<Option<SessionEntry>>, name: Seq<char>, end: nat)
    requires
        end <= entries.len(),
    ensures
        period_members(entries, name, end).len() <= end,
        forall|k: int| 0 <= k < period_members(entries, name, end).len() ==> {
            let x = #[trigger] period_members(entries, name, end)[k];
            0 <= x < end && entries[x] is Some && (entries[x]->0).session@ == name
        },
    decreases end,
{
    if end > 0 {
        lemma_members_bound(entries, name, (end - 1) as nat);
    }
}

proof fn lemma_room_ins_point_range(entries: Seq<Option<SessionEntry>>, t: Seq<int>, x: int)
    ensures
        0 <= room_ins_point(entries, t, x) <= t.len(),
    decreases t.len(),
{
    if t.len() > 0 {
        lemma_room_ins_point_range(entries, t.drop_last(), x);
    }
}

proof fn lemma_sort_by_room_members(entries: Seq<Option<SessionEntry>>, g: Seq<int>)
    ensures
        sort_by_room(entries, g).len() == g.len(),
        forall|i: int| 0 <= i < g.len() ==> g.contains(#[trigger] sort_by_room(entries, g)[i]),
    decreases g.len(),
{
    if g.len() > 0 {
        let prev = g.drop_last();
        lemma_sort_by_room_members(entries, prev);
        let t = sort_by_room(entries, prev);
        let p = room_ins_point(entries, t, g.last());
        lemma_room_ins_point_range(entries, t, g.last());
        let u = t.insert(p, g.last());
        assert forall|i: int| 0 <= i < g.len() implies g.contains(#[trigger] u[i]) by {
            if i < p {
                assert(u[i] == t[i]);
                assert(prev.contains(t[i]));
                let j = choose|j: int| 0 <= j < prev.len() && prev[j] == t[i];
                assert(g[j] == prev[j]);
            } else if i == p {
                assert(g[g.len() - 1] == g.last());
            } else {
                assert(u[i] == t[i - 1]);
                assert(prev.contains(t[i - 1]));
                let j = choose|j: int| 0 <= j < prev.len() && prev[j] == t[i - 1];
                assert(g[j] == prev[j]);
            }
        }
    }
}

fn room_key_exec(e: &SessionEntry) -> (r: i32)
    ensures
        r as int == room_key(*e),
{
    match parse_i32(e.room.as_str()) {
        Some(v) => v,
        None => 9999,
    }
}

/// The positions of the sessions of period `name`, sorted by room.
fn sorted_members(entries: &Vec<Option<SessionEntry>>, name: &str) -> (r: Vec<usize>)
    ensures
        r@.map_values(|x: usize| x as int) == sort_by_room(entries@, period_members(entries@, name@, entries@.len())),
        forall|k: int| 0 <= k < r@.len() ==> #[trigger] r@[k] < entries@.len() && entries@[r@[k] as int] is Some,
{
    let ghost es = entries@;
    let wanted = name.to_owned();
    let mut members: Vec<usize> = Vec::new();
    let mut i: usize = 0;
    while i < entries.len()
        invariant
            es == entries@,
            wanted@ == name@,
            i <= es.len(),
            members@.map_values(|x: usize| x as int) == period_members(es, name@, i as nat),
        decreases entries.len() - i,
    {
        match &entries[i] {
            Some(e) => {
                if e.session == wanted {
                    let ghost prev = members@;
                    members.push(i);
                    assert(members@.map_values(|x: usize| x as int) =~= prev.map_values(|x: usize| x as int).push(
                        i as int,
                    ));
                }
            },
            None => {},
        }
        i = i + 1;
    }
    let ghost g = members@.map_values(|x: usize| x as int);
    proof {
        lemma_members_bound(es, name@, es.len());
    }
    let mut sorted: Vec<usize> = Vec::new();
    let mut keys: Vec<i32> = Vec::new();
    let mut k: usize = 0;
    while k < members.len()
        invariant
            es == entries@,
            g == members@.map_values(|x: usize| x as int),
            g == period_members(es, name@, es.len()),
            k <= g.len(),
            forall|j: int| 0 <= j < g.len() ==> 0 <= #[trigger] g[j] < es.len() && es[g[j]] is Some,
            sorted@.map_values(|x: usize| x as int) == sort_by_room(es, g.take(k as int)),
            keys@.len() == sorted@.len(),
            forall|j: int| 0 <= j < keys@.len() ==> #[trigger] keys@[j] as int == room_key(es[sorted@[j] as int]->0),
        decreases members.len() - k,
    {
        let x = members[k];
        assert(g[k as int] == x as int);
        let key = match &entries[x] {
            Some(e) => room_key_exec(e),
            None => 9999,
        };
        let ghost t = sorted@.map_values(|y: usize| y as int);
        let mut p: usize = sorted.len();
        assert(t.take(p as int) =~= t);
        while p > 0 && keys[p - 1] > key
            invariant
                es == entries@,
                sorted@.map_values(|y: usize| y as int) == t,
                keys@.len() == sorted@.len(),
                forall|j: int| 0 <= j < keys@.len() ==> #[trigger] keys@[j] as int == room_key(es[sorted@[j] as int]->0),
                p <= t.len(),
                key as int == room_key(es[x as int]->0),
                room_ins_point(es, t, x as int) == room_ins_point(es, t.take(p as int), x as int),
            decreases p,
        {
            assert(t.take(p as int).drop_last() =~= t.take(p - 1));
            assert(t.take(p as int).last() == sorted@[p - 1] as int);
            p = p - 1;
        }
        proof {
            if p > 0 {
                assert(t.take(p as int).last() == sorted@[p - 1] as int);
            }
        }
        assert(t.take(0) =~= Seq::<int>::empty());
        let ghost old_sorted = sorted@;
        let ghost old_keys = keys@;
        sorted.insert(p, x);
        keys.insert(p, key);
        assert(sorted@.map_values(|y: usize| y as int) =~= t.insert(p as int, x as int));
        assert forall|j: int| 0 <= j < keys@.len() implies #[trigger] keys@[j] as int == room_key(es[sorted@[j] as int]->0) by {
            if j < p {
                assert(keys@[j] == old_keys[j] && sorted@[j] == old_sorted[j]);
            } else if j > p {
                assert(keys@[j] == old_keys[j - 1] && sorted@[j] == old_sorted[j - 1]);
            }
        }
        assert(g.take(k + 1).drop_last() =~= g.take(k as int));
        assert(g.take(k + 1).last() == x as int);
        k = k + 1;
    }
    assert(g.take(k as int) =~= g);
    proof {
        lemma_sort_by_room_members(es, g);
        assert forall|j: int| 0 <= j < sorted@.len() implies #[trigger] sorted@[j] < es.len() && es[sorted@[j] as int] is Some by {
            let v = sorted@.map_values(|y: usize| y as int);
            assert(v[j] == sorted@[j] as int);
            assert(g.contains(v[j]));
        }
    }
    sorted
}



fn push_session_entry(out: &mut Vec<SheetCell>, e: &SessionEntry, name: &str, row: u32)
    ensures
        cells_view(final(out)@) == cells_view(old(out)@) + session_entry_cells(*e, name@, row as int),
{
    let ghost start = cells_view(out@);
    out.push(text(row, 0, name.to_owned(), CellStyle::Plain));
    out.push(text(row, 1, e.room.clone(), CellStyle::Id));
    out.push(text(row, 2, e.id.clone(), CellStyle::Id));
    out.push(text(row, 3, e.title.clone(), CellStyle::Title));
    out.push(text(row, 4, e.classification.clone(), CellStyle::Plain));
    out.push(text(row, 5, e.organizers.clone(), CellStyle::Title));
    out.push(text(row, 6, e.speakers.clone(), CellStyle::Title));
    out.push(text(row, 7, e.notes.clone(), CellStyle::Title));
    assert(cells_view(out@) =~= start + session_entry_cells(*e, name@, row as int));
}

proof fn lemma_periods_mono(entries: Seq<Option<SessionEntry>>, start: int, a: nat, b: nat)
    requires
        a <= b,
    ensures
        periods_cells(entries, start, a).1 <= periods_cells(entries, start, b).1,
    decreases b,
{
    if a < b {
        lemma_periods_mono(entries, start, a, (b - 1) as nat);
    }
}

/// The cells of a sheet written from the entries the web page sends back:
/// the column headers in row 0; then for each period in chronological
/// order that has sessions, a heading row (period and room count), its
/// sessions ordered by room number (rooms that are not numbers last, equal
/// rooms in the order given) and a blank row. Items that are not session
/// records (`None`) are left out; an empty list is refused.
pub fn sessions_sheet(entries: &Vec<Option<SessionEntry>>) -> (r: Result<Vec<SheetCell>, String>)
    requires
        periods_cells(entries@, 1, 8).1 <= u32::MAX,
    ensures
        r is Err <==> entries@.len() == 0,
        r matches Err(e) ==> e@ == "No sessions provided"@,
        r matches Ok(v) ==> cells_view(v@) == entries_sheet_cells(entries@),
{
    if entries.len() == 0 {
        return Err("No sessions provided".to_owned());
    }
    let ghost es = entries@;
    let mut out: Vec<SheetCell> = Vec::new();
    push_header(&mut out);
    let mut row: u32 = 1;
    let mut q: usize = 0;
    while q < 8
        invariant
            es == entries@,
            q <= 8,
            periods_cells(es, 1, 8).1 <= u32::MAX,
            row as int == periods_cells(es, 1, q as nat).1,
            cells_view(out@) == Seq::<CellView>::empty() + header_cells() + periods_cells(es, 1, q as nat).0,
        decreases 8 - q,
    {
        proof {
            lemma_periods_mono(es, 1, (q + 1) as nat, 8);
        }
        let name = slot_name_exec(q);
        let g = sorted_members(entries, name);
        let ghost gv = g@.map_values(|x: usize| x as int);
        assert(gv == sort_by_room(es, period_members(es, name@, es.len())));
        if g.len() > 0 {
            let ghost before = cells_view(out@);
            let ghost start_row = row as int;
            out.push(text(row, 0, name.to_owned(), CellStyle::SessionHeader));
            let a = concat("(", usize_text(g.len()).as_str());
            out.push(text(row, 1, concat(a.as_str(), " rooms)"), CellStyle::SessionHeader));
            let ghost heading = cells_view(out@);
            assert(heading =~= before + seq![
                text_cell(start_row, 0, slot_name(q as int), CellStyle::SessionHeader),
                text_cell(start_row, 1, "("@ + nat_digits(gv.len()) + " rooms)"@, CellStyle::SessionHeader),
            ]);
            let mut r: u32 = row + 1;
            let mut j: usize = 0;
            while j < g.len()
                invariant
                    es == entries@,
                    j <= g@.len(),
                    gv == g@.map_values(|x: usize| x as int),
                    forall|k: int| 0 <= k < g@.len() ==> #[trigger] g@[k] < es.len() && es[g@[k] as int] is Some,
                    name@ == slot_name(q as int),
                    start_row + 1 + g@.len() + 1 <= u32::MAX,
                    r as int == start_row + 1 + j,
                    cells_view(out@) == heading + group_rows(es, gv, name@, start_row + 1, j as nat),
                decreases g.len() - j,
            {
                let x = g[j];
                assert(gv[j as int] == x as int);
                match &entries[x] {
                    Some(e) => {
                        push_session_entry(&mut out, e, name, r);
                    },
                    None => {
                        assert(false);
                    },
                }
                r = r + 1;
                j = j + 1;
            }
            row = r + 1;
            assert(cells_view(out@) =~= Seq::<CellView>::empty() + header_cells() + periods_cells(es, 1, (q + 1) as nat).0);
        } else {
            assert(periods_cells(es, 1, (q + 1) as nat) == periods_cells(es, 1, q as nat));
        }
        q = q + 1;
    }
    Ok(out)
}


// ===========================================================================
// The analysis summary appended to a schedule sheet
// ===========================================================================

/// The last of rows 1 to 999 whose first cell is filled (0 when none is).
pub open spec fn last_filled(filled: Seq<bool>, end: nat) -> nat
    decreases end,
{
    if end <= 1 {
        0
    } else if end - 1 < 1000 && end - 1 < filled.len() && filled[end - 1] {
        (end - 1) as nat
    } else {
        last_filled(filled, (end - 1) as nat)
    }
}

/// The last of rows 1 to 999 whose first cell is filled (0 when none is);
/// `filled[i]` tells whether row `i` has a non-empty first cell.
pub fn last_filled_row(filled: &Vec<bool>) -> (r: usize)
    ensures
        r == last_filled(filled@, 1000),
        r < 1000,
{
    let mut last: usize = 0;
    let mut i: usize = 1;
    while i < 1000
        invariant
            1 <= i <= 1000,
            last == last_filled(filled@, i as nat),
            last < i,
        decreases 1000 - i,
    {
        if i < filled.len() && filled[i] {
            last = i;
        }
        i = i + 1;
    }
    last
}

/// The lines of the conflict summary appended below a schedule.
pub open spec fn summary_lines(
    total_sessions: nat,
    total_conflicts: nat,
    classification: nat,
    personal: nat,
    personal_classification: nat,
    series_room: nat,
    series_back_to_back: nat,
) -> Seq<Seq<char>> {
    seq![
        "CONFLICT ANALYSIS SUMMARY"@,
        "─────────────────────────────────"@,
        "Total Sessions: "@ + nat_digits(total_sessions),
        "Total Conflicts: "@ + nat_digits(total_conflicts),
        ""@,
        "Conflict Breakdown:"@,
        "  • Classification Conflicts: "@ + nat_digits(classification),
        "  • Personal Conflicts: "@ + nat_digits(personal),
        "  • Personal-Classification Conflicts: "@ + nat_digits(personal_classification),
        "  • Series Room Conflicts: "@ + nat_digits(series_room),
        "  • Series Back-to-Back Conflicts: "@ + nat_digits(series_back_to_back),
    ]
}

/// The lines of the conflict summary, written one per row below the
/// schedule.
pub fn conflict_summary_lines(
    total_sessions: usize,
    total_conflicts: usize,
    classification: usize,
    personal: usize,
    personal_classification: usize,
    series_room: usize,
    series_back_to_back: usize,
) -> (r: Vec<String>)
    ensures
        views(r@) == summary_lines(
            total_sessions as nat,
            total_conflicts as nat,
            classification as nat,
            personal as nat,
            personal_classification as nat,
            series_room as nat,
            series_back_to_back as nat,
        ),
{
    let r: Vec<String> = vec![
        "CONFLICT ANALYSIS SUMMARY".to_owned(),
        "─────────────────────────────────".to_owned(),
        concat("Total Sessions: ", usize_text(total_sessions).as_str()),
        concat("Total Conflicts: ", usize_text(total_conflicts).as_str()),
        "".to_owned(),
        "Conflict Breakdown:".to_owned(),
        concat("  • Classification Conflicts: ", usize_text(classification).as_str()),
        concat("  • Personal Conflicts: ", usize_text(personal).as_str()),
        concat("  • Personal-Classification Conflicts: ", usize_text(personal_classification).as_str()),
        concat("  • Series Room Conflicts: ", usize_text(series_room).as_str()),
        concat("  • Series Back-to-Back Conflicts: ", usize_text(series_back_to_back).as_str()),
    ];
    assert(views(r@) =~= summary_lines(
        total_sessions as nat,
        total_conflicts as nat,
        classification as nat,
        personal as nat,
        personal_classification as nat,
        series_room as nat,
        series_back_to_back as nat,
    ));
    r
}

} // verus!
