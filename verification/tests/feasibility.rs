use conference_scheduler::feasibility::{
    analyze_feasibility, check_personal_classification_feasibility, check_series_back_to_back_feasibility,
    check_series_room_feasibility, check_speaker_organizer_feasibility,
};
use conference_scheduler::model::Minisymposium;

fn entry(title: &str, notes: &str, orgs: &[&str], speakers: &[&str], key: Option<&str>) -> Minisymposium {
    Minisymposium {
        id: 0,
        title: title.to_string(),
        notes: notes.to_string(),
        organizers: orgs.iter().map(|s| s.to_string()).collect(),
        speakers: speakers.iter().map(|s| s.to_string()).collect(),
        classification: vec![],
        series_key: key.map(|k| k.to_string()),
        part_number: None,
        is_cl_minisymposium: false,
        cl_lecture_ids: vec![],
    }
}

fn three_with_liu() -> Vec<Minisymposium> {
    vec![
        entry("A - Part I", "graph", &["Liu"], &[], Some("a")),
        entry("A - Part II", "graph", &[], &["LIU"], Some("a")),
        entry("B", "", &["Chen"], &[" liu "], None),
    ]
}

#[test]
fn person_in_more_sessions_than_slots() {
    let (ok, reason) = check_speaker_organizer_feasibility(&three_with_liu(), 2, 5);
    assert!(!ok);
    assert_eq!(reason, "✗ IMPOSSIBLE: Person 'liu' appears in 3 sessions but only 2 time slots available");
}

#[test]
fn people_fit_in_the_slots() {
    let (ok, reason) = check_speaker_organizer_feasibility(&three_with_liu(), 8, 12);
    assert!(ok);
    assert_eq!(reason, "✓ FEASIBLE: Max sessions per person = 3 (fits in 8 time slots)");
}

#[test]
fn notes_keyword_capacity() {
    let (ok, reason) = check_personal_classification_feasibility(&three_with_liu(), 1, 1);
    assert!(!ok);
    assert_eq!(reason, "✗ IMPOSSIBLE: 2 sessions with notes 'graph' but capacity is only 1 (1×1)");
    let (ok, reason) = check_personal_classification_feasibility(&three_with_liu(), 2, 3);
    assert!(ok);
    assert_eq!(reason, "✓ FEASIBLE: Max 2 sessions with same notes 'graph' (capacity: 2 slots × 3 rooms = 6)");
    let (ok, reason) = check_personal_classification_feasibility(&[], 2, 3);
    assert!(ok);
    assert_eq!(reason, "✓ FEASIBLE: No sessions with matching notes keywords");
}

#[test]
fn series_rooms_needed() {
    let (ok, reason) = check_series_room_feasibility(&three_with_liu(), 1);
    assert!(ok);
    assert_eq!(reason, "✓ FEASIBLE: 1 series detected, 1 rooms available");
    let (ok, reason) = check_series_room_feasibility(&three_with_liu(), 0);
    assert!(!ok);
    assert_eq!(reason, "✗ MIGHT BE DIFFICULT: 1 series but only 0 rooms (series may need to share rooms)");
}

#[test]
fn series_longer_than_the_slots() {
    let (ok, reason) = check_series_back_to_back_feasibility(&three_with_liu(), 1);
    assert!(!ok);
    assert_eq!(reason, "✗ IMPOSSIBLE: Series 'a' has 2 parts but only 1 time slots available");
    let (ok, reason) = check_series_back_to_back_feasibility(&three_with_liu(), 4);
    assert!(ok);
    assert_eq!(reason, "✓ FEASIBLE: Longest series has 2 parts, 4 time slots available");
}

#[test]
fn full_feasibility_report() {
    let r = analyze_feasibility(&three_with_liu(), 8, 12);
    assert!(r.speaker_organizer_feasible);
    assert!(r.personal_classification_feasible);
    assert!(r.series_room_feasible);
    assert!(r.series_back_to_back_feasible);
    assert_eq!(r.series_room_reason, "✓ FEASIBLE: 1 series detected, 12 rooms available");
}
