use conference_scheduler::conflict_detection::{
    has_series_back_to_back_conflict, has_series_chronological_violation, has_series_room_conflict, is_series_sibling,
};
use conference_scheduler::counts::{
    calculate_conflicts, has_classification_conflict, has_personal_classification_conflict, has_speaker_organizer_conflict,
};
use conference_scheduler::model::{ConflictCounts, ConflictType, Minisymposium, Solution};
use conference_scheduler::feasibility::{check_personal_classification_feasibility, check_speaker_organizer_feasibility};
use conference_scheduler::moves::apply_swap;

fn ms(notes: &str, orgs: &[&str], speakers: &[&str], codes: &[i32]) -> Minisymposium {
    Minisymposium {
        id: 1,
        title: "t".to_string(),
        notes: notes.to_string(),
        organizers: orgs.iter().map(|s| s.to_string()).collect(),
        speakers: speakers.iter().map(|s| s.to_string()).collect(),
        classification: codes.to_vec(),
        series_key: None,
        part_number: None,
        is_cl_minisymposium: false,
        cl_lecture_ids: vec![],
    }
}

#[test]
fn conflict_tests_are_symmetric() {
    let a = ms("Graph", &["Chen"], &["Liu"], &[1, 2]);
    let b = ms("graph", &[], &["liu"], &[2]);
    let c = ms("mesh", &["Anzt"], &[], &[3]);
    for (x, y) in [(&a, &b), (&a, &c), (&b, &c)] {
        assert_eq!(has_classification_conflict(x, y), has_classification_conflict(y, x));
        assert_eq!(has_speaker_organizer_conflict(x, y), has_speaker_organizer_conflict(y, x));
        assert_eq!(has_personal_classification_conflict(x, y), has_personal_classification_conflict(y, x));
    }
    assert!(has_classification_conflict(&a, &b) && has_speaker_organizer_conflict(&b, &a));
}

#[test]
fn series_tests_are_symmetric_and_need_one_series() {
    let t1 = "X - Part I";
    let t2 = "X - Part II";
    let t3 = "Y - Part II";
    assert_eq!(is_series_sibling(t1, t2), is_series_sibling(t2, t1));
    assert_eq!(has_series_room_conflict(t1, "1", t2, "2"), has_series_room_conflict(t2, "2", t1, "1"));
    assert!(!has_series_room_conflict(t1, "1", t3, "2"));
    assert!(!has_series_back_to_back_conflict(t1, "TUE First Period", t3, "TUE First Period"));
    assert!(!has_series_chronological_violation(t2, "TUE First Period", t3, "WED First Period"));
}

#[test]
fn same_period_is_never_out_of_order() {
    assert!(!has_series_chronological_violation("X - Part III", "WED First Period", "X - Part I", "WED First Period"));
    assert!(!has_series_back_to_back_conflict("X - Part I", "TUE First Period", "X - Part I", "TUE First Period"));
}

#[test]
fn swapping_twice_gives_the_schedule_back() {
    let start = vec![vec![3, 1, 4], vec![1, 5], vec![9]];
    let mut s = start.clone();
    apply_swap(&mut s, (0, 1), (2, 0));
    assert_ne!(s, start);
    apply_swap(&mut s, (0, 1), (2, 0));
    assert_eq!(s, start);
}

#[test]
fn score_grows_with_counts() {
    let low = ConflictCounts { classification: 1, series_back_to_back: 2, ..ConflictCounts::default() };
    let high = ConflictCounts { classification: 1, series_back_to_back: 3, personal_classification: 1, ..ConflictCounts::default() };
    assert!(Solution::calculate_fitness(&low) <= Solution::calculate_fitness(&high));
    assert_eq!(Solution::calculate_fitness(&ConflictCounts::default()), 0);
}

#[test]
fn overbooked_person_always_conflicts() {
    let sessions = vec![
        ms("a", &["Chen"], &[], &[1]),
        ms("b", &[], &["chen "], &[2]),
        ms("c", &["C hen"], &[], &[3]),
        ms("d", &["Other"], &[], &[4]),
    ];
    let layouts: Vec<Vec<Vec<usize>>> = vec![
        vec![vec![0, 1], vec![2, 3]],
        vec![vec![0, 3], vec![1, 2]],
        vec![vec![3, 1], vec![2, 0]],
    ];
    assert!(!check_speaker_organizer_feasibility(&sessions, 2, 12).0);
    for schedule in &layouts {
        assert!(calculate_conflicts(ConflictType::SpeakerOrganizer, schedule, &sessions) > 0);
    }
    let roomy = vec![vec![0, 3], vec![1], vec![2]];
    assert_eq!(calculate_conflicts(ConflictType::SpeakerOrganizer, &roomy, &sessions), 0);
}

#[test]
fn crowded_keyword_always_conflicts() {
    let sessions = vec![ms("Graph", &["A"], &[], &[1]), ms(" graph", &["B"], &[], &[2]), ms("GRAPH", &["C"], &[], &[3])];
    assert!(!check_personal_classification_feasibility(&sessions, 2, 1).0);
    let schedule = vec![vec![0, 2], vec![1]];
    assert!(calculate_conflicts(ConflictType::PersonalClassification, &schedule, &sessions) > 0);
    let spread = vec![vec![0], vec![1], vec![2]];
    assert_eq!(calculate_conflicts(ConflictType::PersonalClassification, &spread, &sessions), 0);
}

#[test]
fn crowded_code_always_conflicts() {
    let sessions = vec![ms("a", &["A"], &[], &[600, 1]), ms("b", &["B"], &[], &[600]), ms("c", &["C"], &[], &[2, 600])];
    let schedule = vec![vec![2], vec![1, 0]];
    assert!(calculate_conflicts(ConflictType::Classification, &schedule, &sessions) > 0);
    let spread = vec![vec![0], vec![1], vec![2]];
    assert_eq!(calculate_conflicts(ConflictType::Classification, &spread, &sessions), 0);
}
