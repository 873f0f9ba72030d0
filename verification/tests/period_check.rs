use conference_scheduler::period_check::{
    classification_codes, classification_report, count_classification_conflicts, has_classification_conflict,
    schedule_sessions, ScheduleSession,
};

fn row(cells: &[&str]) -> Vec<String> {
    cells.iter().map(|c| c.to_string()).collect()
}

fn session(period: &str, codes: &str) -> ScheduleSession {
    ScheduleSession {
        id: "1".to_string(),
        session_period: period.to_string(),
        room: "1".to_string(),
        title: "T".to_string(),
        classification: codes.to_string(),
        organizers: String::new(),
        speakers: String::new(),
    }
}

#[test]
fn sessions_follow_period_rows() {
    let rows = vec![
        row(&["Session", "Room", "ID", "Title", "Classification"]),
        row(&["", "", "7", "Before any period"]),
        row(&["TUE First Period", "(2 rooms)"]),
        row(&["TUE First Period", "1", "12", "Graphs", "05; 11", "Ann", "Bob"]),
        row(&["", "2", "", "No id"]),
        row(&["WED Second Period", "3", "CL-10001", " Spaced "]),
    ];
    let sessions = schedule_sessions(&rows).unwrap();
    assert_eq!(sessions.len(), 2);
    assert_eq!(sessions[0].session_period, "TUE First Period");
    assert_eq!(sessions[0].id, "12");
    assert_eq!(sessions[0].classification, "05; 11");
    assert_eq!(sessions[0].organizers, "Ann");
    assert_eq!(sessions[0].speakers, "Bob");
    assert_eq!(sessions[1].session_period, "WED Second Period");
    assert_eq!(sessions[1].id, "CL-10001");
    assert_eq!(sessions[1].title, " Spaced ");
    assert_eq!(sessions[1].classification, "");
}

#[test]
fn no_sessions_is_an_error() {
    let rows = vec![row(&["Session", "Room", "ID"]), row(&["TUE First Period", "(0 rooms)"])];
    assert_eq!(schedule_sessions(&rows).unwrap_err(), "No valid sessions found in the schedule file");
    assert!(schedule_sessions(&vec![]).is_err());
}

#[test]
fn only_numeric_codes_count() {
    assert_eq!(classification_codes(" 05; x1 ;;11 ; 3a"), vec!["05".to_string(), "11".to_string()]);
    assert!(classification_codes("").is_empty());
    assert!(has_classification_conflict(&session("P", "5; 11"), &session("P", "11")));
    assert!(!has_classification_conflict(&session("P", "5"), &session("P", "05")));
    assert!(!has_classification_conflict(&session("P", "ab"), &session("P", "ab")));
}

#[test]
fn conflicts_counted_within_periods() {
    let sessions = vec![
        session("TUE First Period", "1; 2"),
        session("TUE First Period", "2"),
        session("WED First Period", "2"),
        session("TUE First Period", "1"),
    ];
    assert_eq!(count_classification_conflicts(&sessions), 2);
    assert_eq!(count_classification_conflicts(&vec![]), 0);
}

#[test]
fn report_states_total() {
    assert_eq!(
        classification_report(3),
        "\n==================================================\n✅ Analysis Complete!\nTotal classification conflicts: 3\n=================================================="
    );
}
