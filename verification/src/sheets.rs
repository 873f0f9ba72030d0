//! Turning the rows of the input and schedule sheets (each cell already read
//! as text) into minisymposia, contributed lectures and scheduled sessions.
use vstd::prelude::*;
use crate::analysis::{SessionInfo, parse_people_list, people_list};
use crate::conflict_detection::{extract_series_info, series_info};
use crate::model::{ContributedLecture, Minisymposium};
use crate::preprocess::views;
use crate::text::{
    before_first, before_first_chars, chars_of, contains_text, has_substring, parse_i32, parse_i32_spec,
    split_on, split_trimmed, string_of, trim_chars, trim_spec, trim_text, trimmed_pieces,
};

verus! {

// ===========================================================================
// Cells
// ===========================================================================

/// The text of cell `col` of a row (empty past the end of the row).
pub open spec fn cell_text(row: Seq<String>, col: int) -> Seq<char> {
    if 0 <= col < row.len() {
        row[col]@
    } else {
        Seq::empty()
    }
}

/// The text of cell `col` of `row`, empty past the end of the row.
pub fn cell(row: &Vec<String>, col: usize) -> (r: String)
    ensures
        r@ == cell_text(row@, col as int),
{
    if col >= row.len() {
        String::new()
    } else {
        row[col].clone()
    }
}

/// The positive numbers among the first `end` cells, each read as an `i32`
/// after trimming (cells that do not read as a number are left out).
pub open spec fn codes_from(cells: Seq<Seq<char>>, end: nat) -> Seq<i32>
    decreases end,
{
    if end == 0 {
        Seq::empty()
    } else {
        let prev = codes_from(cells, (end - 1) as nat);
        match parse_i32_spec(trim_spec(cells[end - 1])) {
            Some(v) => if v > 0 {
                prev.push(v as i32)
            } else {
                prev
            },
            None => prev,
        }
    }
}

/// The classification codes written in `cells`: each cell trimmed and read
/// as an `i32`, the positive ones kept in order.
pub fn parse_codes(cells: &Vec<String>) -> (r: Vec<i32>)
    ensures
        r@ == codes_from(views(cells@), cells@.len()),
{
    let mut r: Vec<i32> = Vec::new();
    let mut i: usize = 0;
    while i < cells.len()
        invariant
            i <= cells@.len(),
            r@ == codes_from(views(cells@), i as nat),
        decreases cells.len() - i,
    {
        let t = trim_text(cells[i].as_str());
        match parse_i32(t.as_str()) {
            Some(v) => {
                if v > 0 {
                    r.push(v);
                }
            },
            None => {},
        }
        i = i + 1;
    }
    r
}

// ===========================================================================
// The minisymposia sheet
// ===========================================================================

/// A speaker's name from a speaker cell: the text before the first `-`,
/// then before the first `(`, trimmed.
pub open spec fn speaker_name(s: Seq<char>) -> Seq<char> {
    trim_spec(before_first(before_first(s, seq!['-']), seq!['(']))
}

/// The speaker names of the first `end` speaker cells: empty cells and
/// empty names are left out.
pub open spec fn speaker_names(cells: Seq<Seq<char>>, end: nat) -> Seq<Seq<char>>
    decreases end,
{
    if end == 0 {
        Seq::empty()
    } else {
        let prev = speaker_names(cells, (end - 1) as nat);
        let c = cells[end - 1];
        if c.len() > 0 && speaker_name(c).len() > 0 {
            prev.push(speaker_name(c))
        } else {
            prev
        }
    }
}

/// The name in a speaker cell.
fn speaker_name_exec(s: &String) -> (r: String)
    ensures
        r@ == speaker_name(s@),
{
    let v = chars_of(s.as_str());
    let dash: Vec<char> = vec!['-'];
    let paren: Vec<char> = vec!['('];
    assert(dash@ =~= seq!['-']);
    assert(paren@ =~= seq!['(']);
    let a = before_first_chars(&v, &dash);
    let b = before_first_chars(&a, &paren);
    let t = trim_chars(&b);
    string_of(&t)
}

/// The speakers named in `cells`.
fn speakers_from(cells: &Vec<String>) -> (r: Vec<String>)
    ensures
        views(r@) == speaker_names(views(cells@), cells@.len()),
{
    let mut r: Vec<String> = Vec::new();
    let mut i: usize = 0;
    while i < cells.len()
        invariant
            i <= cells@.len(),
            views(r@) == speaker_names(views(cells@), i as nat),
        decreases cells.len() - i,
    {
        if !cells[i].as_str().is_empty() {
            let name = speaker_name_exec(&cells[i]);
            if !name.as_str().is_empty() {
                let ghost prev = r@;
                r.push(name);
                assert(views(r@) =~= views(prev).push(speaker_name(cells@[i as int]@)));
            }
        }
        i = i + 1;
    }
    r
}

/// The title marks the sheet's header (or an empty row): it is empty, holds
/// `Proposal TITLE`, or holds `TITLE` while the organizers cell holds
/// `Organizers`.
pub open spec fn is_header_title(title: Seq<char>, organizers: Seq<char>) -> bool {
    ||| title.len() == 0
    ||| has_substring(title, "Proposal TITLE"@)
    ||| (has_substring(title, "TITLE"@) && has_substring(organizers, "Organizers"@))
}

/// `m` is the minisymposium described by `row` with session number `id`:
/// codes from cells 1 to 3, title from cell 5, organizers from cell 6 (split
/// at commas, trimmed, empty ones left out), speakers from cells 7 to 10,
/// notes from cell 11, and the series its title names.
pub open spec fn minisymposium_of_row(row: Seq<String>, id: i32, m: Minisymposium) -> bool {
    let title = cell_text(row, 5);
    let orgs = split_on(cell_text(row, 6), ',');
    &&& m.id == id
    &&& m.title@ == title
    &&& m.notes@ == cell_text(row, 11)
    &&& views(m.organizers@) == trimmed_pieces(orgs, orgs.len())
    &&& views(m.speakers@) == speaker_names(
        seq![cell_text(row, 7), cell_text(row, 8), cell_text(row, 9), cell_text(row, 10)],
        4,
    )
    &&& m.classification@ == codes_from(seq![cell_text(row, 1), cell_text(row, 2), cell_text(row, 3)], 3)
    &&& match series_info(title) {
        Some(p) => m.series_key matches Some(k) && k@ == p.0,
        None => m.series_key is None,
    }
    &&& m.part_number is None
    &&& !m.is_cl_minisymposium
    &&& m.cl_lecture_ids@.len() == 0
}

/// The minisymposium a row of the minisymposia sheet describes; `None` for
/// the header row and rows without a title.
pub fn minisymposium_from_row(row: &Vec<String>, id: i32) -> (r: Option<Minisymposium>)
    ensures
        r is None <==> is_header_title(cell_text(row@, 5), cell_text(row@, 6)),
        r matches Some(m) ==> minisymposium_of_row(row@, id, m),
{
    let title = cell(row, 5);
    let organizers_str = cell(row, 6);
    if title.as_str().is_empty() || contains_text(title.as_str(), "Proposal TITLE") || (contains_text(
        title.as_str(),
        "TITLE",
    ) && contains_text(organizers_str.as_str(), "Organizers")) {
        return None;
    }
    let notes = cell(row, 11);
    let organizers = split_trimmed(organizers_str.as_str(), ',');
    let speaker_cells: Vec<String> = vec![cell(row, 7), cell(row, 8), cell(row, 9), cell(row, 10)];
    let speakers = speakers_from(&speaker_cells);
    let code_cells: Vec<String> = vec![cell(row, 1), cell(row, 2), cell(row, 3)];
    let classification = parse_codes(&code_cells);
    let series_key = match extract_series_info(title.as_str()) {
        Some(info) => Some(info.0),
        None => None,
    };
    proof {
        assert(views(speaker_cells@) =~= seq![
            cell_text(row@, 7),
            cell_text(row@, 8),
            cell_text(row@, 9),
            cell_text(row@, 10),
        ]);
        assert(views(code_cells@) =~= seq![cell_text(row@, 1), cell_text(row@, 2), cell_text(row@, 3)]);
        assert(views(organizers@) =~= organizers@.map_values(|t: String| t@));
    }
    Some(
        Minisymposium {
            id,
            title,
            notes,
            organizers,
            speakers,
            classification,
            series_key,
            part_number: None,
            is_cl_minisymposium: false,
            cl_lecture_ids: Vec::new(),
        },
    )
}

/// The rows of the minisymposia sheet that describe minisymposia: rows 1 to
/// 1000 (row 0 is the header) among the first `end`, header rows left out.
pub open spec fn minisymposium_rows(rows: Seq<Vec<String>>, end: nat) -> Seq<int>
    decreases end,
{
    if end <= 1 {
        Seq::empty()
    } else {
        let prev = minisymposium_rows(rows, (end - 1) as nat);
        let i = end - 1;
        if i <= 1000 && !is_header_title(cell_text(rows[i]@, 5), cell_text(rows[i]@, 6)) {
            prev.push(i)
        } else {
            prev
        }
    }
}

/// The minisymposia of the minisymposia sheet, in row order; `ids[i]` is the
/// session number read from row `i`.
pub fn minisymposia_from_rows(rows: &Vec<Vec<String>>, ids: &Vec<i32>) -> (r: Vec<Minisymposium>)
    requires
        ids@.len() == rows@.len(),
    ensures
        ({
            let kept = minisymposium_rows(rows@, rows@.len());
            &&& r@.len() == kept.len()
            &&& forall|k: int|
                0 <= k < kept.len() ==> minisymposium_of_row(
                    rows@[kept[k]]@,
                    ids@[kept[k]],
                    #[trigger] r@[k],
                )
        }),
{
    let mut r: Vec<Minisymposium> = Vec::new();
    let mut i: usize = 1;
    if rows.len() == 0 {
        return r;
    }
    while i < rows.len()
        invariant
            1 <= i <= rows@.len(),
            ids@.len() == rows@.len(),
            r@.len() == minisymposium_rows(rows@, i as nat).len(),
            forall|k: int|
                0 <= k < r@.len() ==> minisymposium_of_row(
                    rows@[minisymposium_rows(rows@, i as nat)[k]]@,
                    ids@[minisymposium_rows(rows@, i as nat)[k]],
                    #[trigger] r@[k],
                ),
        decreases rows.len() - i,
    {
        if i <= 1000 {
            match minisymposium_from_row(&rows[i], ids[i]) {
                Some(m) => {
                    let ghost prev = r@;
                    r.push(m);
                    proof {
                        let kept = minisymposium_rows(rows@, (i + 1) as nat);
                        assert forall|k: int| 0 <= k < r@.len() implies minisymposium_of_row(
                            rows@[kept[k]]@,
                            ids@[kept[k]],
                            #[trigger] r@[k],
                        ) by {
                            if k < prev.len() {
                                assert(r@[k] == prev[k]);
                            }
                        }
                    }
                },
                None => {},
            }
        }
        i = i + 1;
    }
    r
}

// ===========================================================================
// The contributed lectures sheet
// ===========================================================================

/// `l` is the lecture described by `row` with lecture id `id`: codes from
/// cells 1 to 3, speaker from the first name (cell 6) and last name (cell
/// 5), title from cell 8, notes from cell 9.
pub open spec fn lecture_of_row(row: Seq<String>, id: i32, l: ContributedLecture) -> bool {
    &&& l.id == id
    &&& l.title@ == cell_text(row, 8)
    &&& l.speaker@ == trim_spec(cell_text(row, 6) + seq![' '] + cell_text(row, 5))
    &&& l.notes@ == cell_text(row, 9)
    &&& l.classification@ == codes_from(seq![cell_text(row, 1), cell_text(row, 2), cell_text(row, 3)], 3)
}

/// A row describes no lecture: its id is 0 or its title is blank.
pub open spec fn is_blank_lecture(row: Seq<String>, id: i32) -> bool {
    id == 0 || trim_spec(cell_text(row, 8)).len() == 0
}

/// The lecture a row of the contributed lectures sheet describes; `None` for
/// rows with id 0 or a blank title.
pub fn lecture_from_row(row: &Vec<String>, id: i32) -> (r: Option<ContributedLecture>)
    ensures
        r is None <==> is_blank_lecture(row@, id),
        r matches Some(l) ==> lecture_of_row(row@, id, l),
{
    let title = cell(row, 8);
    let first_name = cell(row, 6);
    let last_name = cell(row, 5);
    let mut full: Vec<char> = chars_of(first_name.as_str());
    full.push(' ');
    let last = chars_of(last_name.as_str());
    let mut j: usize = 0;
    let ghost base = full@;
    while j < last.len()
        invariant
            j <= last@.len(),
            full@ == base + last@.take(j as int),
        decreases last.len() - j,
    {
        full.push(last[j]);
        j = j + 1;
        assert(full@ =~= base + last@.take(j as int));
    }
    assert(last@.take(j as int) =~= last@);
    assert(full@ =~= cell_text(row@, 6) + seq![' '] + cell_text(row@, 5));
    let speaker = string_of(&trim_chars(&full));
    let notes = cell(row, 9);
    let trimmed_title = trim_text(title.as_str());
    if id == 0 || trimmed_title.as_str().is_empty() {
        return None;
    }
    let code_cells: Vec<String> = vec![cell(row, 1), cell(row, 2), cell(row, 3)];
    let classification = parse_codes(&code_cells);
    assert(views(code_cells@) =~= seq![cell_text(row@, 1), cell_text(row@, 2), cell_text(row@, 3)]);
    Some(ContributedLecture { id, title, speaker, classification, notes })
}

/// The rows of the lectures sheet that describe lectures: rows 2 to 5000
/// (rows 0 and 1 are headers) among the first `end`, blank rows left out.
pub open spec fn lecture_rows(rows: Seq<Vec<String>>, ids: Seq<i32>, end: nat) -> Seq<int>
    decreases end,
{
    if end <= 2 {
        Seq::empty()
    } else {
        let prev = lecture_rows(rows, ids, (end - 1) as nat);
        let i = end - 1;
        if i <= 5000 && !is_blank_lecture(rows[i]@, ids[i]) {
            prev.push(i)
        } else {
            prev
        }
    }
}

/// The lectures of the contributed lectures sheet, in row order; `ids[i]`
/// is the lecture id read from row `i`.
pub fn lectures_from_rows(rows: &Vec<Vec<String>>, ids: &Vec<i32>) -> (r: Vec<ContributedLecture>)
    requires
        ids@.len() == rows@.len(),
    ensures
        ({
            let kept = lecture_rows(rows@, ids@, rows@.len());
            &&& r@.len() == kept.len()
            &&& forall|k: int|
                0 <= k < kept.len() ==> lecture_of_row(rows@[kept[k]]@, ids@[kept[k]], #[trigger] r@[k])
        }),
{
    let mut r: Vec<ContributedLecture> = Vec::new();
    if rows.len() <= 2 {
        return r;
    }
    let mut i: usize = 2;
    while i < rows.len()
        invariant
            2 <= i <= rows@.len(),
            ids@.len() == rows@.len(),
            r@.len() == lecture_rows(rows@, ids@, i as nat).len(),
            forall|k: int|
                0 <= k < r@.len() ==> lecture_of_row(
                    rows@[lecture_rows(rows@, ids@, i as nat)[k]]@,
                    ids@[lecture_rows(rows@, ids@, i as nat)[k]],
                    #[trigger] r@[k],
                ),
        decreases rows.len() - i,
    {
        if i <= 5000 {
            match lecture_from_row(&rows[i], ids[i]) {
                Some(l) => {
                    let ghost prev = r@;
                    r.push(l);
                    proof {
                        let kept = lecture_rows(rows@, ids@, (i + 1) as nat);
                        assert forall|k: int| 0 <= k < r@.len() implies lecture_of_row(
                            rows@[kept[k]]@,
                            ids@[kept[k]],
                            #[trigger] r@[k],
                        ) by {
                            if k < prev.len() {
                                assert(r@[k] == prev[k]);
                            }
                        }
                    }
                },
                None => {},
            }
        }
        i = i + 1;
    }
    r
}

// ===========================================================================
// The schedule sheet
// ===========================================================================

/// A cell of the schedule sheet as it is read there: trimmed.
pub open spec fn schedule_cell(row: Seq<String>, col: int) -> Seq<char> {
    trim_spec(cell_text(row, col))
}

/// The text of cell `col` of a schedule row, trimmed.
fn schedule_cell_exec(row: &Vec<String>, col: usize) -> (r: String)
    ensures
        r@ == schedule_cell(row@, col as int),
{
    let c = cell(row, col);
    trim_text(c.as_str())
}

/// A row whose first cell names a period starts that period.
pub open spec fn starts_period(row: Seq<String>) -> bool {
    has_substring(schedule_cell(row, 0), "First Period"@) || has_substring(
        schedule_cell(row, 0),
        "Second Period"@,
    )
}

/// The period in force after the first `end` rows (row 0, the header, is
/// not read): the first cell of the last row that started one.
pub open spec fn period_after(rows: Seq<Vec<String>>, end: nat) -> Option<Seq<char>>
    decreases end,
{
    if end <= 1 {
        None
    } else if starts_period(rows[end - 1]@) {
        Some(schedule_cell(rows[end - 1]@, 0))
    } else {
        period_after(rows, (end - 1) as nat)
    }
}

/// The rows of the schedule sheet that hold a session: rows after the
/// header with an id (cell 2) once a period has started.
pub open spec fn session_rows(rows: Seq<Vec<String>>, end: nat) -> Seq<int>
    decreases end,
{
    if end <= 1 {
        Seq::empty()
    } else {
        let prev = session_rows(rows, (end - 1) as nat);
        let i = end - 1;
        if schedule_cell(rows[i]@, 2).len() > 0 && period_after(rows, end) is Some {
            prev.push(i)
        } else {
            prev
        }
    }
}

/// `s` is the session of `row` held in `period`: room in cell 1, id in cell
/// 2, title in cell 3, codes in cell 4 (split at semicolons, trimmed, empty
/// ones left out), organizers and speakers in cells 5 and 6 (as
/// `parse_people_list` reads them), notes in cell 7; all cells trimmed.
pub open spec fn session_of_row(row: Seq<String>, period: Seq<char>, s: SessionInfo) -> bool {
    let codes = split_on(schedule_cell(row, 4), ';');
    &&& s.id@ == schedule_cell(row, 2)
    &&& s.title@ == schedule_cell(row, 3)
    &&& s.session_period@ == period
    &&& s.room@ == schedule_cell(row, 1)
    &&& views(s.classification@) == trimmed_pieces(codes, codes.len())
    &&& views(s.organizers@) == people_list(schedule_cell(row, 5))
    &&& views(s.speakers@) == people_list(schedule_cell(row, 6))
    &&& s.notes@ == schedule_cell(row, 7)
}

/// The sessions of the schedule sheet, in row order, each with the period
/// whose heading row came last before it; an error when there are none.
pub fn sessions_from_rows(rows: &Vec<Vec<String>>) -> (r: Result<Vec<SessionInfo>, String>)
    ensures
        ({
            let kept = session_rows(rows@, rows@.len());
            &&& r is Err <==> kept.len() == 0
            &&& r matches Err(e) ==> e@ == "No sessions found in the schedule"@
            &&& r matches Ok(v) ==> v@.len() == kept.len() && forall|k: int|
                0 <= k < kept.len() ==> session_of_row(
                    rows@[kept[k]]@,
                    period_after(rows@, (kept[k] + 1) as nat)->0,
                    #[trigger] v@[k],
                )
        }),
{
    let mut sessions: Vec<SessionInfo> = Vec::new();
    let mut current: Option<String> = None;
    let mut i: usize = 1;
    if rows.len() == 0 {
        return Err("No sessions found in the schedule".to_owned());
    }
    while i < rows.len()
        invariant
            1 <= i <= rows@.len(),
            match current {
                Some(p) => period_after(rows@, i as nat) == Some(p@),
                None => period_after(rows@, i as nat) is None,
            },
            sessions@.len() == session_rows(rows@, i as nat).len(),
            forall|k: int|
                0 <= k < sessions@.len() ==> session_of_row(
                    rows@[session_rows(rows@, i as nat)[k]]@,
                    period_after(rows@, (session_rows(rows@, i as nat)[k] + 1) as nat)->0,
                    #[trigger] sessions@[k],
                ),
            forall|k: int|
                0 <= k < session_rows(rows@, i as nat).len() ==> 0 <= #[trigger] session_rows(rows@, i as nat)[k]
                    < i,
        decreases rows.len() - i,
    {
        let row = &rows[i];
        let first = schedule_cell_exec(row, 0);
        if contains_text(first.as_str(), "First Period") || contains_text(first.as_str(), "Second Period") {
            current = Some(first);
        }
        let id = schedule_cell_exec(row, 2);
        let ghost kept_before = session_rows(rows@, i as nat);
        match &current {
            Some(period) => {
                if !id.as_str().is_empty() {
                    let codes_str = schedule_cell_exec(row, 4);
                    let classification = split_trimmed(codes_str.as_str(), ';');
                    let organizers_str = schedule_cell_exec(row, 5);
                    let speakers_str = schedule_cell_exec(row, 6);
                    let info = SessionInfo {
                        id,
                        title: schedule_cell_exec(row, 3),
                        session_period: period.clone(),
                        room: schedule_cell_exec(row, 1),
                        classification,
                        organizers: parse_people_list(organizers_str.as_str()),
                        speakers: parse_people_list(speakers_str.as_str()),
                        notes: schedule_cell_exec(row, 7),
                    };
                    let ghost prev = sessions@;
                    proof {
                        assert(views(info.classification@) =~= info.classification@.map_values(|t: String| t@));
                    }
                    sessions.push(info);
                    proof {
                        let kept = session_rows(rows@, (i + 1) as nat);
                        assert(kept == kept_before.push(i as int));
                        assert forall|k: int| 0 <= k < sessions@.len() implies session_of_row(
                            rows@[kept[k]]@,
                            period_after(rows@, (kept[k] + 1) as nat)->0,
                            #[trigger] sessions@[k],
                        ) by {
                            if k < prev.len() {
                                assert(sessions@[k] == prev[k]);
                                assert(kept[k] == kept_before[k]);
                            }
                        }
                    }
                }
            },
            None => {},
        }
        proof {
            let kept = session_rows(rows@, (i + 1) as nat);
            assert forall|k: int| 0 <= k < kept.len() implies 0 <= #[trigger] kept[k] < i + 1 by {
                if k < kept_before.len() {
                    assert(kept[k] == kept_before[k]);
                }
            }
        }
        i = i + 1;
    }
    if sessions.len() == 0 {
        return Err("No sessions found in the schedule".to_owned());
    }
    Ok(sessions)
}

} // verus!
