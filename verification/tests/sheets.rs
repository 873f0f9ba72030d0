use conference_scheduler::sheets::{
    cell, lecture_from_row, lectures_from_rows, minisymposia_from_rows, minisymposium_from_row, parse_codes,
    sessions_from_rows,
};

fn row(cells: &[&str]) -> Vec<String> {
    cells.iter().map(|s| s.to_string()).collect()
}

fn ms_row() -> Vec<String> {
    row(&[
        "TUE 10:00",
        "600",
        " 700 ",
        "x",
        "85764",
        "Graph Methods - Part II",
        "Chen, Liu ,",
        "Dr. A - Uni (X)",
        "",
        "B (Inst)",
        "C",
        "graph",
    ])
}

#[test]
fn cells_past_the_end_are_empty() {
    let r = row(&["a", "b"]);
    assert_eq!(cell(&r, 1), "b");
    assert_eq!(cell(&r, 5), "");
}

#[test]
fn codes_from_cells() {
    assert_eq!(parse_codes(&row(&["600", " 0", "-3", "x", " 12 "])), vec![600, 12]);
}

#[test]
fn minisymposium_row_is_read() {
    let m = minisymposium_from_row(&ms_row(), 85764).expect("a minisymposium");
    assert_eq!(m.id, 85764);
    assert_eq!(m.title, "Graph Methods - Part II");
    assert_eq!(m.organizers, vec!["Chen".to_string(), "Liu".to_string()]);
    assert_eq!(m.speakers, vec!["Dr. A".to_string(), "B".to_string(), "C".to_string()]);
    assert_eq!(m.classification, vec![600, 700]);
    assert_eq!(m.series_key, Some("graphmethods".to_string()));
    assert_eq!(m.notes, "graph");
    assert!(!m.is_cl_minisymposium);
    assert_eq!(m.part_number, None);
}

#[test]
fn header_and_empty_rows_are_skipped() {
    let mut header = ms_row();
    header[5] = "Proposal TITLE".to_string();
    assert!(minisymposium_from_row(&header, 0).is_none());
    let mut header2 = ms_row();
    header2[5] = "TITLE".to_string();
    header2[6] = "Organizers".to_string();
    assert!(minisymposium_from_row(&header2, 0).is_none());
    assert!(minisymposium_from_row(&row(&["", "1"]), 0).is_none());
}

#[test]
fn minisymposia_sheet_rows() {
    let rows = vec![ms_row(), ms_row(), row(&["x"]), ms_row()];
    let out = minisymposia_from_rows(&rows, &vec![1, 2, 3, 4]);
    assert_eq!(out.len(), 2);
    assert_eq!(out[0].id, 2);
    assert_eq!(out[1].id, 4);
}

#[test]
fn lecture_row_is_read() {
    let r = row(&["", "100", "", "abc", "17", "Smith", "Jane", "", "Sparse solvers", "krylov"]);
    let l = lecture_from_row(&r, 17).expect("a lecture");
    assert_eq!(l.speaker, "Jane Smith");
    assert_eq!(l.title, "Sparse solvers");
    assert_eq!(l.notes, "krylov");
    assert_eq!(l.classification, vec![100]);
    assert!(lecture_from_row(&r, 0).is_none());
    let mut blank = r.clone();
    blank[8] = "  ".to_string();
    assert!(lecture_from_row(&blank, 17).is_none());
}

#[test]
fn lectures_sheet_skips_two_header_rows() {
    let r = row(&["", "100", "", "", "17", "Smith", "Jane", "", "Sparse solvers", "krylov"]);
    let rows = vec![r.clone(), r.clone(), r.clone()];
    let out = lectures_from_rows(&rows, &vec![5, 6, 7]);
    assert_eq!(out.len(), 1);
    assert_eq!(out[0].id, 7);
}

#[test]
fn schedule_sheet_rows() {
    let rows = vec![
        row(&["Session", "Room", "ID", "Title", "Classification", "Organizers", "Speakers", "Notes"]),
        row(&["TUE First Period"]),
        row(&["", " R1 ", "101", "Talk A", "600; 700;", "Chen and Liu", "Krause", " graph "]),
        row(&["TUE Second Period", "R2", "102", "Talk B"]),
    ];
    let s = sessions_from_rows(&rows).expect("sessions");
    assert_eq!(s.len(), 2);
    assert_eq!(s[0].session_period, "TUE First Period");
    assert_eq!(s[0].room, "R1");
    assert_eq!(s[0].id, "101");
    assert_eq!(s[0].classification, vec!["600".to_string(), "700".to_string()]);
    assert_eq!(s[0].organizers, vec!["Chen".to_string(), "Liu".to_string()]);
    assert_eq!(s[0].notes, "graph");
    assert_eq!(s[1].session_period, "TUE Second Period");
    assert!(s[1].speakers.is_empty());
}

#[test]
fn schedule_sheet_without_sessions() {
    let rows = vec![row(&["Session"]), row(&["", "R1", "101"])];
    assert_eq!(sessions_from_rows(&rows).unwrap_err(), "No sessions found in the schedule");
    assert!(sessions_from_rows(&vec![]).is_err());
}
