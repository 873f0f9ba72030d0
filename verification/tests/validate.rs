use conference_scheduler::validate::{
    check_input_sheets, check_output_layout, check_schedule_layout, upload_error, upload_mode, UploadMode,
};

fn rows(r: &[&[&str]]) -> Vec<Vec<String>> {
    r.iter().map(|c| c.iter().map(|s| s.to_string()).collect()).collect()
}

const HEADER: &[&str] = &["Session", "Room", "ID", "Title", "Classification", "Organizers", "Speakers", "Notes"];

#[test]
fn uploaded_schedule_layout() {
    let good = rows(&[HEADER, &["TUE First Period", "1", "101"]]);
    assert_eq!(check_schedule_layout(1, &good), Ok(()));
    assert_eq!(check_schedule_layout(2, &good), Err("File must contain exactly one sheet (no multiple sheets)".to_string()));
    assert_eq!(check_schedule_layout(1, &rows(&[HEADER])), Err("Sheet is empty or has no data rows".to_string()));
    let partial = rows(&[&[" Session ", "Room", "ID", "Title", "Classification", "Organizers"], &["x"]]);
    assert_eq!(
        check_schedule_layout(1, &partial),
        Err("Missing required columns: speakers. Found: session, room, id, title, classification, organizers".to_string())
    );
}

#[test]
fn input_workbook_sheets() {
    let names = |v: &[&str]| v.iter().map(|s| s.to_string()).collect::<Vec<String>>();
    assert_eq!(check_input_sheets(&names(&["Minisymposia", "Contributed Lectures"])), Ok(()));
    assert_eq!(check_input_sheets(&names(&["Minisymposia"])), Err("File must contain a 'Contributed Lectures' sheet".to_string()));
    assert_eq!(check_input_sheets(&names(&["minisymposia"])), Err("File must contain a 'Minisymposia' sheet".to_string()));
}

#[test]
fn written_schedule_layout() {
    let good = rows(&[HEADER, &["TUE First Period", "1", "101"]]);
    assert_eq!(check_output_layout(1, &good), Ok(()));
    assert_eq!(check_output_layout(3, &good), Err("Expected 1 sheet, found 3".to_string()));
    assert_eq!(check_output_layout(1, &rows(&[HEADER])), Err("No data rows found".to_string()));
    let missing = rows(&[&["Session", "Room", "ID", "Title"], &["TUE First Period"]]);
    assert_eq!(
        check_output_layout(1, &missing),
        Err("Missing columns: [\"classification\", \"organizers\", \"speakers\"]".to_string())
    );
    let no_period = rows(&[HEADER, &["Session 1"], &[], &["Session 2"]]);
    assert_eq!(
        check_output_layout(1, &no_period),
        Err("Session names don't contain 'First Period' or 'Second Period'".to_string())
    );
    let late = rows(&[HEADER, &["a"], &["b"], &["c"], &["d"], &["e"], &["TUE First Period"]]);
    assert!(check_output_layout(1, &late).is_err());
}

#[test]
fn uploads_need_a_workbook() {
    assert_eq!(upload_error(false, "a.xlsx"), Some("No file uploaded".to_string()));
    assert_eq!(
        upload_error(true, "schedule.csv"),
        Some("Invalid file format. Please upload an Excel file (.xlsx or .xls)".to_string())
    );
    assert_eq!(upload_error(true, "xlsx"), Some("Invalid file format. Please upload an Excel file (.xlsx or .xls)".to_string()));
    assert_eq!(upload_error(true, "schedule.xlsx"), None);
    assert_eq!(upload_error(true, "old.xls"), None);
}

#[test]
fn upload_modes() {
    assert_eq!(upload_mode("analyze"), Some(UploadMode::Analyze));
    assert_eq!(upload_mode("generate"), Some(UploadMode::Generate));
    assert_eq!(upload_mode("Analyze"), None);
    assert_eq!(upload_mode(""), None);
}
