use conference_scheduler::layout::{
    conflict_summary_lines, last_filled_row, schedule_sheet, sessions_sheet, CellStyle, CellValue, SessionEntry,
    SheetCell,
};
use conference_scheduler::model::Minisymposium;

fn m(id: i32, title: &str, cl: bool) -> Minisymposium {
    Minisymposium {
        id,
        title: title.to_string(),
        notes: "n".to_string(),
        organizers: vec!["O1".to_string(), "O2".to_string()],
        speakers: vec!["S1".to_string()],
        classification: vec![600, 700],
        series_key: None,
        part_number: None,
        is_cl_minisymposium: cl,
        cl_lecture_ids: vec![],
    }
}

fn text_at(cells: &[SheetCell], row: u32, col: u16) -> Option<String> {
    cells.iter().find(|c| c.row == row && c.col == col).and_then(|c| match &c.value {
        CellValue::Text(t) => Some(t.clone()),
        CellValue::Number(_) => None,
    })
}

fn number_at(cells: &[SheetCell], row: u32, col: u16) -> Option<i64> {
    cells.iter().find(|c| c.row == row && c.col == col).and_then(|c| match &c.value {
        CellValue::Number(n) => Some(*n),
        CellValue::Text(_) => None,
    })
}

#[test]
fn schedule_sheet_layout() {
    let ms = vec![m(85764, "Alpha", false), m(10000, "CL Group", true), m(3, "Left out", false)];
    let cells = schedule_sheet(&vec![vec![0, 1], vec![], vec![9]], &ms);
    assert_eq!(text_at(&cells, 0, 0), Some("Session".to_string()));
    assert_eq!(text_at(&cells, 0, 7), Some("Notes".to_string()));
    assert_eq!(text_at(&cells, 1, 0), Some("TUE First Period".to_string()));
    assert_eq!(text_at(&cells, 1, 1), Some("(2 rooms)".to_string()));
    assert_eq!(number_at(&cells, 2, 1), Some(1));
    assert_eq!(number_at(&cells, 2, 2), Some(85764));
    assert_eq!(text_at(&cells, 2, 4), Some("600; 700".to_string()));
    assert_eq!(text_at(&cells, 2, 5), Some("O1, O2".to_string()));
    assert_eq!(text_at(&cells, 3, 2), Some("CL-10000".to_string()));
    assert_eq!(text_at(&cells, 3, 5), Some("".to_string()));
    assert_eq!(text_at(&cells, 5, 0), Some("WED First Period".to_string()));
    assert_eq!(text_at(&cells, 5, 1), Some("(1 rooms)".to_string()));
    assert_eq!(text_at(&cells, 8, 0), Some("UNSCHEDULED (1 sessions)".to_string()));
    assert_eq!(number_at(&cells, 9, 2), Some(3));
    assert_eq!(text_at(&cells, 9, 3), Some("Left out".to_string()));
    assert!(cells.iter().all(|c| c.row <= 9));
    assert!(cells.iter().filter(|c| c.row == 0).all(|c| c.style == CellStyle::Header));
    assert_eq!(cells.iter().filter(|c| c.style == CellStyle::Alert).count(), 1);
}

fn entry(session: &str, room: &str, id: &str) -> Option<SessionEntry> {
    Some(SessionEntry {
        session: session.to_string(),
        room: room.to_string(),
        id: id.to_string(),
        title: format!("T{}", id),
        classification: String::new(),
        organizers: String::new(),
        speakers: String::new(),
        notes: String::new(),
    })
}

#[test]
fn sessions_sheet_orders_periods_and_rooms() {
    let entries = vec![
        entry("WED First Period", "2", "a"),
        entry("TUE First Period", "10", "b"),
        None,
        entry("TUE First Period", "x", "c"),
        entry("TUE First Period", "3", "d"),
        entry("Unknown", "1", "e"),
    ];
    let cells = sessions_sheet(&entries).expect("cells");
    assert_eq!(text_at(&cells, 1, 0), Some("TUE First Period".to_string()));
    assert_eq!(text_at(&cells, 1, 1), Some("(3 rooms)".to_string()));
    assert_eq!(text_at(&cells, 2, 2), Some("d".to_string()));
    assert_eq!(text_at(&cells, 3, 2), Some("b".to_string()));
    assert_eq!(text_at(&cells, 4, 2), Some("c".to_string()));
    assert_eq!(text_at(&cells, 6, 0), Some("WED First Period".to_string()));
    assert_eq!(text_at(&cells, 7, 2), Some("a".to_string()));
    assert!(cells.iter().all(|c| c.row <= 7));
}

#[test]
fn sessions_sheet_needs_sessions() {
    assert_eq!(sessions_sheet(&vec![]).err(), Some("No sessions provided".to_string()));
    let only_other = sessions_sheet(&vec![None]).expect("header only");
    assert_eq!(only_other.len(), 8);
}

#[test]
fn last_filled_row_skips_blank_rows() {
    let mut filled = vec![false; 1200];
    filled[0] = true;
    filled[3] = true;
    filled[7] = true;
    filled[1100] = true;
    assert_eq!(last_filled_row(&filled), 7);
    assert_eq!(last_filled_row(&vec![true]), 0);
    assert_eq!(last_filled_row(&vec![]), 0);
}

#[test]
fn conflict_summary_lists_counts() {
    let lines = conflict_summary_lines(120, 9, 1, 2, 3, 0, 3);
    assert_eq!(lines.len(), 11);
    assert_eq!(lines[0], "CONFLICT ANALYSIS SUMMARY");
    assert_eq!(lines[2], "Total Sessions: 120");
    assert_eq!(lines[3], "Total Conflicts: 9");
    assert_eq!(lines[4], "");
    assert_eq!(lines[6], "  • Classification Conflicts: 1");
    assert_eq!(lines[7], "  • Personal Conflicts: 2");
    assert_eq!(lines[8], "  • Personal-Classification Conflicts: 3");
    assert_eq!(lines[9], "  • Series Room Conflicts: 0");
    assert_eq!(lines[10], "  • Series Back-to-Back Conflicts: 3");
}
