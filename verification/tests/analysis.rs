use conference_scheduler::analysis::{
    analyze_series, calculate_statistics, calculate_theoretical_bounds, detect_classification_conflicts,
    detect_personal_classification_conflicts, detect_personal_conflicts, detect_series_conflicts,
    extract_series_base, group_sessions_by_period, parse_people_list, truncate_title, ConflictDetails,
    ConflictType, SessionInfo,
};

fn info(id: &str, title: &str, period: &str, room: &str, codes: &[&str], orgs: &[&str], speakers: &[&str], notes: &str) -> SessionInfo {
    let own = |v: &[&str]| v.iter().map(|s| s.to_string()).collect::<Vec<String>>();
    SessionInfo {
        id: id.to_string(),
        title: title.to_string(),
        session_period: period.to_string(),
        room: room.to_string(),
        classification: own(codes),
        organizers: own(orgs),
        speakers: own(speakers),
        notes: notes.to_string(),
    }
}

fn schedule_rows() -> Vec<SessionInfo> {
    vec![
        info("1", "Alpha - Part I", "TUE First Period", "R1", &["600", "700"], &["Chen"], &["Liu"], "graph"),
        info("2", "Alpha - Part II", "TUE First Period", "R2", &["700"], &[], &["Krause"], "graph"),
        info("3", "Beta", "TUE Second Period", "R1", &["800"], &["liu"], &[], ""),
        info("4", "Gamma", "TUE Second Period", "R2", &["800"], &[], &["Anzt"], "Notes"),
    ]
}

fn all_details(s: &[SessionInfo]) -> ConflictDetails {
    let (series_room, series_back_to_back) = detect_series_conflicts(s);
    ConflictDetails {
        classification: detect_classification_conflicts(s),
        personal: detect_personal_conflicts(s),
        personal_classification: detect_personal_classification_conflicts(s),
        series_room,
        series_back_to_back,
    }
}

#[test]
fn sessions_grouped_by_period_in_order() {
    let s = schedule_rows();
    let g = group_sessions_by_period(&s);
    assert_eq!(g, vec![("TUE First Period".to_string(), vec![0, 1]), ("TUE Second Period".to_string(), vec![2, 3])]);
}

#[test]
fn classification_conflicts_reported_per_period() {
    let c = detect_classification_conflicts(&schedule_rows());
    assert_eq!(c.len(), 2);
    assert_eq!(c[0].conflict_type, ConflictType::Classification);
    assert_eq!(c[0].period, "TUE First Period");
    assert_eq!(c[0].session1.id, "1");
    assert_eq!(c[0].session2.title, "Alpha - Part II");
    assert_eq!(c[0].details, "Shared classifications: 700");
    assert_eq!(c[1].details, "Shared classifications: 800");
}

#[test]
fn personal_conflicts_only_within_a_period() {
    assert!(detect_personal_conflicts(&schedule_rows()).is_empty());
    let s = vec![
        info("1", "A", "P", "R1", &[], &["Chen"], &["Liu"], ""),
        info("2", "B", "P", "R2", &[], &[], &["L iu", "Anzt"], ""),
    ];
    let c = detect_personal_conflicts(&s);
    assert_eq!(c.len(), 1);
    assert_eq!(c[0].details, "Conflicting people: Liu");
}

#[test]
fn personal_classification_conflicts_name_the_notes() {
    let c = detect_personal_classification_conflicts(&schedule_rows());
    assert_eq!(c.len(), 1);
    assert_eq!(c[0].conflict_type, ConflictType::PersonalClassification);
    assert_eq!(c[0].details, "Matching notes keywords: 'graph' vs 'graph'");
}

#[test]
fn series_conflicts_of_parallel_parts() {
    let (room, back) = detect_series_conflicts(&schedule_rows());
    assert_eq!(room.len(), 1);
    assert_eq!(room[0].details, "Series 'alpha' parts in different rooms");
    assert_eq!(room[0].period, "TUE First Period");
    assert_eq!(back.len(), 1);
    assert_eq!(back[0].details, "Series 'alpha' parts scheduled in parallel");
}

#[test]
fn series_parts_far_apart() {
    let s = vec![
        info("1", "Alpha - Part I", "TUE First Period", "R1", &[], &[], &[], ""),
        info("2", "Alpha - Part II", "WED First Period", "R1", &[], &[], &[], ""),
    ];
    let (room, back) = detect_series_conflicts(&s);
    assert!(room.is_empty());
    assert_eq!(back.len(), 1);
    assert_eq!(back[0].details, "Series 'alpha' parts not in consecutive periods");
    assert_eq!(back[0].period, "WED First Period");
}

#[test]
fn series_analysis_summary() {
    let a = analyze_series(&schedule_rows());
    assert_eq!(a.total_series, 1);
    assert_eq!(a.optimal, 0);
    assert_eq!(a.suboptimal, 1);
    let s = &a.series_list[0];
    assert_eq!(s.base_title, "alpha");
    assert_eq!(s.total_parts, 2);
    assert!(!s.is_optimal);
    assert_eq!(s.issues, vec!["Different rooms: R1 vs R2".to_string(), "Parts scheduled in parallel in TUE First Period".to_string()]);
}

#[test]
fn well_placed_series_is_optimal() {
    let s = vec![
        info("1", "Alpha - Part II", "TUE Second Period", "R1", &[], &[], &[], ""),
        info("2", "Alpha - Part I", "TUE First Period", "R1", &[], &[], &[], ""),
    ];
    let a = analyze_series(&s);
    assert_eq!(a.optimal, 1);
    assert!(a.series_list[0].issues.is_empty());
    assert_eq!(a.series_list[0].sessions[0].id, "2");
}

#[test]
fn people_lists() {
    assert_eq!(parse_people_list("Chen and Liu; Krause, A"), vec!["Chen".to_string(), "Liu".to_string(), "Krause".to_string()]);
    assert_eq!(parse_people_list("Xu AND Yang And Zhou"), vec!["Xu".to_string(), "Yang".to_string(), "Zhou".to_string()]);
    assert!(parse_people_list("").is_empty());
}

#[test]
fn series_bases_of_titles() {
    assert_eq!(extract_series_base("Deep Learning - Part 2"), Some("deeplearning".to_string()));
    assert_eq!(extract_series_base("Methods- Part II"), Some("methods".to_string()));
    assert_eq!(extract_series_base("Plain"), None);
}

#[test]
fn statistics_counts() {
    let s = schedule_rows();
    let st = calculate_statistics(&s, &all_details(&s));
    assert_eq!(st.total_possible_pairs, 2);
    assert_eq!(st.by_period.len(), 2);
    assert_eq!(st.by_period[0].0, "TUE First Period");
    assert_eq!(st.by_period[0].1.session_count, 2);
    assert_eq!(st.by_period[0].1.classification_conflicts, 1);
    assert_eq!(st.by_period[0].1.personal_conflicts, 0);
    assert_eq!(st.by_period[0].1.personal_classification_conflicts, 1);
    assert_eq!(st.by_period[1].1.personal_classification_conflicts, 0);
    assert_eq!(st.room_usage.len(), 2);
    assert_eq!(st.room_usage[0].0, "R1");
    assert_eq!(st.room_usage[0].1.total_sessions, 2);
    assert_eq!(st.room_usage[0].1.periods, vec!["TUE First Period".to_string(), "TUE Second Period".to_string()]);
    assert_eq!(
        st.classification_distribution,
        vec![("600".to_string(), 1), ("700".to_string(), 2), ("800".to_string(), 2)]
    );
}

#[test]
fn theoretical_bounds_of_a_small_schedule() {
    let s = schedule_rows();
    let b = calculate_theoretical_bounds(&s, &all_details(&s));
    assert_eq!(b.speaker_organizer.theoretical_min, 0);
    assert_eq!(b.speaker_organizer.current, 0);
    assert!(b.speaker_organizer.is_optimal);
    assert_eq!(b.speaker_organizer.explanation, "Max 1 sessions/person, 8 slots available");
    assert_eq!(b.personal_classification.theoretical_min, 0);
    assert_eq!(b.personal_classification.current, 1);
    assert_eq!(b.personal_classification.gap, 1);
    assert!(!b.personal_classification.is_optimal);
    assert_eq!(b.personal_classification.explanation, "Most constrained keyword 'graph' has 2 sessions, 8 slots available");
    assert_eq!(b.series_room.current, 1);
    assert_eq!(b.series_room.explanation, "1 series detected, 12 rooms available (pigeonhole principle)");
    assert!(b.series_back_to_back.is_optimal);
    assert_eq!(b.series_back_to_back.explanation, "0 series with 3+ parts, 8 slots available for consecutive placement");
    assert_eq!(b.classification.theoretical_min, 1);
    assert_eq!(b.classification.current, 2);
    assert!(b.classification.is_optimal);
}

#[test]
fn titles_shortened_for_reports() {
    assert_eq!(truncate_title("Short", 10), "Short");
    assert_eq!(truncate_title("A long title here", 10), "A long ...");
    assert_eq!(truncate_title("abc", 2), "...");
    assert_eq!(truncate_title("Ünïcode title", 8), "Ünï...");
}

#[test]
fn keyword_minimum_is_a_lower_bound() {
    let periods = ["TUE First Period", "TUE Second Period", "WED First Period"];
    let s: Vec<SessionInfo> = (0..19)
        .map(|i| {
            let id = i.to_string();
            info(&id, "Talk", periods[i % 3], &id, &[], &[], &[], "Graph Theory")
        })
        .collect();
    let d = all_details(&s);
    let b = calculate_theoretical_bounds(&s, &d);
    assert_eq!(b.personal_classification.theoretical_min, 3);
    assert!(d.personal_classification.len() >= b.personal_classification.theoretical_min);
    assert_eq!(d.personal_classification.len(), 21 + 15 + 15);
}

#[test]
fn person_minimum_is_a_lower_bound() {
    let s: Vec<SessionInfo> = (0..10)
        .map(|i| {
            let id = i.to_string();
            info(&id, "Talk", "WED First Period", &id, &[], &[], &["Liu"], "")
        })
        .collect();
    let d = all_details(&s);
    let b = calculate_theoretical_bounds(&s, &d);
    assert_eq!(b.speaker_organizer.theoretical_min, 2);
    assert_eq!(d.personal.len(), 45);
    assert!(d.personal.len() >= b.speaker_organizer.theoretical_min);
}

#[test]
fn series_base_drops_the_part_suffix_either_way() {
    assert_eq!(extract_series_base("Graph Analytics - Part I of II"), Some("graphanalytics".to_string()));
    assert_eq!(extract_series_base("Graph Analytics- Part 2"), Some("graphanalytics".to_string()));
    assert_eq!(extract_series_base("Graph Analytics"), None);
}
