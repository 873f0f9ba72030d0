//! A quick check of a schedule sheet: the sessions read as the cells hold
//! them, and the pairs of sessions of one period that share a numeric
//! classification code.
use vstd::prelude::*;
use crate::analysis::concat;
use crate::conflict_detection::has_classification_conflict as codes_clash;
use crate::counts::{lemma_pairs_mono, lemma_row_pairs_mono, pairs_upto, row_pairs};
use crate::page::{lemma_texts_overlap, texts_overlap};
use crate::preprocess::views;
use crate::sheets::{cell, cell_text};
use crate::text::{
    all_ascii_digits, chars_of, contains_text, i32_text, int_text, has_substring, split_on, split_on_chars, string_of,
    trim_chars, trim_spec,
};

verus! {

/// A session of the schedule sheet, its cells as they are.
#[derive(Clone, Debug)]
pub struct ScheduleSession {
    pub id: String,
    pub session_period: String,
    pub room: String,
    pub title: String,
    pub classification: String,
    pub organizers: String,
    pub speakers: String,
}

/// The first cell of `row` names a period.
pub open spec fn opens_period(row: Seq<String>) -> bool {
    has_substring(cell_text(row, 0), "First Period"@) || has_substring(cell_text(row, 0), "Second Period"@)
}

/// The period in force after the first `end` rows (the header, row 0, is
/// not read): the first cell of the last row that named one.
pub open spec fn period_before(rows: Seq<Vec<String>>, end: nat) -> Option<Seq<char>>
    decreases end,
{
    if end <= 1 {
        None
    } else if opens_period(rows[end - 1]@) {
        Some(cell_text(rows[end - 1]@, 0))
    } else {
        period_before(rows, (end - 1) as nat)
    }
}

/// The rows among the first `end` that hold a session: after the header,
/// with an id (cell 2) once a period has been named.
pub open spec fn listed_rows(rows: Seq<Vec<String>>, end: nat) -> Seq<int>
    decreases end,
{
    if end <= 1 {
        Seq::empty()
    } else {
        let prev = listed_rows(rows, (end - 1) as nat);
        let i = end - 1;
        if cell_text(rows[i]@, 2).len() > 0 && period_before(rows, end) is Some {
            prev.push(i)
        } else {
            prev
        }
    }
}

/// `s` is the session of `row` held in `period`: room, id, title, codes,
/// organizers and speakers in cells 1 to 6.
pub open spec fn session_of(row: Seq<String>, period: Seq<char>, s: ScheduleSession) -> bool {
    &&& s.id@ == cell_text(row, 2)
    &&& s.session_period@ == period
    &&& s.room@ == cell_text(row, 1)
    &&& s.title@ == cell_text(row, 3)
    &&& s.classification@ == cell_text(row, 4)
    &&& s.organizers@ == cell_text(row, 5)
    &&& s.speakers@ == cell_text(row, 6)
}

/// The sessions of the sheet, in row order, each with the period named
/// last before it; an error when there are none.
pub fn schedule_sessions(rows: &Vec<Vec<String>>) -> (r: Result<Vec<ScheduleSession>, String>)
    ensures
        ({
            let kept = listed_rows(rows@, rows@.len());
            &&& r is Err <==> kept.len() == 0
            &&& r matches Err(e) ==> e@ == "No valid sessions found in the schedule file"@
            &&& r matches Ok(v) ==> v@.len() == kept.len() && forall|k: int|
                0 <= k < kept.len() ==> session_of(
                    rows@[kept[k]]@,
                    period_before(rows@, (kept[k] + 1) as nat)->0,
                    #[trigger] v@[k],
                )
        }),
{
    let mut sessions: Vec<ScheduleSession> = Vec::new();
    let mut current: Option<String> = None;
    if rows.len() == 0 {
        return Err("No valid sessions found in the schedule file".to_owned());
    }
    let mut i: usize = 1;
    while i < rows.len()
        invariant
            1 <= i <= rows@.len(),
            match current {
                Some(p) => period_before(rows@, i as nat) == Some(p@),
                None => period_before(rows@, i as nat) is None,
            },
            sessions@.len() == listed_rows(rows@, i as nat).len(),
            forall|k: int|
                0 <= k < sessions@.len() ==> session_of(
                    rows@[listed_rows(rows@, i as nat)[k]]@,
                    period_before(rows@, (listed_rows(rows@, i as nat)[k] + 1) as nat)->0,
                    #[trigger] sessions@[k],
                ),
            forall|k: int|
                0 <= k < listed_rows(rows@, i as nat).len() ==> 0 <= #[trigger] listed_rows(rows@, i as nat)[k] < i,
        decreases rows.len() - i,
    {
        let row = &rows[i];
        let first = cell(row, 0);
        if contains_text(first.as_str(), "First Period") || contains_text(first.as_str(), "Second Period") {
            current = Some(first);
        }
        let id = cell(row, 2);
        let ghost kept_before = listed_rows(rows@, i as nat);
        match &current {
            Some(period) => {
                if !id.as_str().is_empty() {
                    let s = ScheduleSession {
                        id,
                        session_period: period.clone(),
                        room: cell(row, 1),
                        title: cell(row, 3),
                        classification: cell(row, 4),
                        organizers: cell(row, 5),
                        speakers: cell(row, 6),
                    };
                    let ghost prev = sessions@;
                    sessions.push(s);
                    proof {
                        let kept = listed_rows(rows@, (i + 1) as nat);
                        assert(kept == kept_before.push(i as int));
                        assert forall|k: int| 0 <= k < sessions@.len() implies session_of(
                            rows@[kept[k]]@,
                            period_before(rows@, (kept[k] + 1) as nat)->0,
                            #[trigger] sessions@[k],
                        ) by {
                            if k < prev.len() {
                                assert(sessions@[k] == prev[k]);
                                assert(kept[k] == kept_before[k]);
                            }
                        }
                    }
                }
            },
            None => {},
        }
        proof {
            let kept = listed_rows(rows@, (i + 1) as nat);
            assert forall|k: int| 0 <= k < kept.len() implies 0 <= #[trigger] kept[k] < i + 1 by {
                if k < kept_before.len() {
                    assert(kept[k] == kept_before[k]);
                }
            }
        }
        i = i + 1;
    }
    if sessions.len() == 0 {
        return Err("No valid sessions found in the schedule file".to_owned());
    }
    Ok(sessions)
}

/// The first `end` pieces, each trimmed, keeping the non-empty ones made of
/// ASCII digits only.
pub open spec fn digit_pieces(pieces: Seq<Seq<char>>, end: nat) -> Seq<Seq<char>>
    decreases end,
{
    if end == 0 {
        Seq::empty()
    } else {
        let prev = digit_pieces(pieces, (end - 1) as nat);
        let t = trim_spec(pieces[end - 1]);
        if t.len() > 0 && all_ascii_digits(t) {
            prev.push(t)
        } else {
            prev
        }
    }
}

/// The numeric codes of a classification cell: its pieces between
/// semicolons, trimmed, the non-empty all-digit ones.
pub open spec fn digit_codes(field: Seq<char>) -> Seq<Seq<char>> {
    let pieces = split_on(field, ';');
    digit_pieces(pieces, pieces.len())
}

fn all_digits(v: &Vec<char>) -> (r: bool)
    ensures
        r == all_ascii_digits(v@),
{
    let mut k: usize = 0;
    while k < v.len()
        invariant
            k <= v@.len(),
            forall|q: int| 0 <= q < k ==> '0' <= #[trigger] v@[q] <= '9',
        decreases v.len() - k,
    {
        if !('0' <= v[k] && v[k] <= '9') {
            return false;
        }
        k = k + 1;
    }
    true
}

/// The numeric codes of a classification cell (see `digit_codes`).
pub fn classification_codes(field: &str) -> (r: Vec<String>)
    ensures
        views(r@) == digit_codes(field@),
{
    let v = chars_of(field);
    let pieces = split_on_chars(&v, ';');
    let ghost ps = split_on(field@, ';');
    let mut r: Vec<String> = Vec::new();
    let mut i: usize = 0;
    while i < pieces.len()
        invariant
            i <= pieces@.len(),
            pieces@.len() == ps.len(),
            forall|k: int| 0 <= k < pieces@.len() ==> #[trigger] pieces@[k]@ == ps[k],
            views(r@) == digit_pieces(ps, i as nat),
        decreases pieces.len() - i,
    {
        let t = trim_chars(&pieces[i]);
        if t.len() > 0 && all_digits(&t) {
            let ghost prev = r@;
            r.push(string_of(&t));
            assert(views(r@) =~= views(prev).push(t@));
        }
        i = i + 1;
    }
    r
}

/// Two classification cells share a numeric code.
pub open spec fn codes_shared(c1: Seq<char>, c2: Seq<char>) -> bool {
    texts_overlap(digit_codes(c1), digit_codes(c2))
}

/// Two sessions share a numeric classification code.
pub fn has_classification_conflict(session1: &ScheduleSession, session2: &ScheduleSession) -> (r: bool)
    ensures
        r == codes_shared(session1.classification@, session2.classification@),
{
    let c1 = classification_codes(session1.classification.as_str());
    let c2 = classification_codes(session2.classification.as_str());
    proof {
        lemma_texts_overlap(c1@, c2@);
    }
    codes_clash(c1.as_slice(), c2.as_slice())
}

/// Sessions `i` and `j` are held in the same period and share a numeric
/// classification code.
pub open spec fn period_clash(es: Seq<ScheduleSession>, i: int, j: int) -> bool {
    es[i].session_period@ == es[j].session_period@ && codes_shared(es[i].classification@, es[j].classification@)
}

/// The pairs of sessions of one period that share a numeric code.
pub open spec fn period_clashes(es: Seq<ScheduleSession>) -> nat {
    pairs_upto(|i: int, j: int| period_clash(es, i, j), es.len(), es.len())
}

/// Counts the pairs of sessions of one period that share a numeric
/// classification code.
pub fn count_classification_conflicts(sessions: &Vec<ScheduleSession>) -> (r: i32)
    requires
        period_clashes(sessions@) <= i32::MAX,
    ensures
        r == period_clashes(sessions@),
{
    let ghost es = sessions@;
    let ghost pc = |i: int, j: int| period_clash(es, i, j);
    let n = sessions.len();
    let mut c: i32 = 0;
    let mut i: usize = 0;
    while i < n
        invariant
            es == sessions@,
            n == es.len(),
            i <= n,
            pc == (|a: int, b: int| period_clash(es, a, b)),
            pairs_upto(pc, n as nat, n as nat) <= i32::MAX,
            c >= 0,
            c as nat == pairs_upto(pc, n as nat, i as nat),
        decreases n - i,
    {
        proof {
            lemma_pairs_mono(pc, n as nat, (i + 1) as nat, n as nat);
        }
        let mut j: usize = i + 1;
        while j < n
            invariant
                es == sessions@,
                n == es.len(),
                i < n,
                i + 1 <= j <= n,
                pc == (|a: int, b: int| period_clash(es, a, b)),
                pairs_upto(pc, n as nat, (i + 1) as nat) <= i32::MAX,
                c >= 0,
                c as nat == pairs_upto(pc, n as nat, i as nat) + row_pairs(pc, i as nat, j as nat),
            decreases n - j,
        {
            proof {
                lemma_row_pairs_mono(pc, i as nat, (j + 1) as nat, n as nat);
            }
            let a = &sessions[i];
            let b = &sessions[j];
            let hit = a.session_period == b.session_period && has_classification_conflict(a, b);
            assert(hit == pc(i as int, j as int));
            if hit {
                c = c + 1;
            }
            j = j + 1;
        }
        i = i + 1;
    }
    c
}

/// The rule line framing the report.
pub open spec fn rule_line() -> Seq<char> {
    "=================================================="@
}

/// The report of the check: the total between two rule lines.
pub open spec fn report_text(total: int) -> Seq<char> {
    "\n"@ + rule_line() + "\n✅ Analysis Complete!\nTotal classification conflicts: "@ + int_text(total) + "\n"@
        + rule_line()
}

/// The report of the check for `total` conflicts.
pub fn classification_report(total: i32) -> (r: String)
    ensures
        r@ == report_text(total as int),
{
    let rule = "==================================================";
    let a = concat("\n", rule);
    let b = concat(a.as_str(), "\n✅ Analysis Complete!\nTotal classification conflicts: ");
    let c = concat(b.as_str(), i32_text(total).as_str());
    let d = concat(c.as_str(), "\n");
    concat(d.as_str(), rule)
}

} // verus!
