use conference_scheduler::counts::{
    calculate_all_conflicts, calculate_selective_conflicts, schedule_counts_fit, violates_protected_constraints,
};
use conference_scheduler::initial::{calculate_session_difficulty, create_initial_schedule};
use conference_scheduler::model::{ConflictCounts, ConflictType, Minisymposium, SchedulerConfig, Solution};
use conference_scheduler::moves::{
    apply_3way_swap, apply_swap, find_conflicting_sessions, find_safe_slots_for_session, find_session_position,
};
use conference_scheduler::optimize::{pick_random_3way_swap, pick_random_swap, random_swap_step, HierarchicalEngine};
use conference_scheduler::series::{
    consolidate_series_rooms, fix_series_ordering, has_chronology_violation,
    is_series_consolidated, try_series_placement,
};

fn session(id: i32, title: &str, notes: &str, orgs: &[&str], speakers: &[&str], codes: &[i32], key: Option<&str>) -> Minisymposium {
    Minisymposium {
        id,
        title: title.to_string(),
        notes: notes.to_string(),
        organizers: orgs.iter().map(|s| s.to_string()).collect(),
        speakers: speakers.iter().map(|s| s.to_string()).collect(),
        classification: codes.to_vec(),
        series_key: key.map(|k| k.to_string()),
        part_number: None,
        is_cl_minisymposium: false,
        cl_lecture_ids: Vec::new(),
    }
}

fn four_sessions() -> Vec<Minisymposium> {
    vec![
        session(1, "Alpha - Part I", "graph", &["Chen"], &["Liu"], &[600], Some("alpha")),
        session(2, "Alpha - Part II", "", &[], &["Krause"], &[700], Some("alpha")),
        session(3, "Beta", "Graph", &["Liu"], &[], &[600], None),
        session(4, "Gamma", "", &[], &["Anzt"], &[800], None),
    ]
}

#[test]
fn all_conflict_counts_of_a_schedule() {
    let ms = four_sessions();
    let c = calculate_all_conflicts(&vec![vec![0, 2], vec![1, 3]], &ms);
    assert_eq!(c.classification, 1);
    assert_eq!(c.speaker_organizer, 1);
    assert_eq!(c.personal_classification, 1);
    assert_eq!(c.series_same_room, 0);
    assert_eq!(c.series_back_to_back, 0);
    let d = calculate_all_conflicts(&vec![vec![0, 1], vec![2, 3]], &ms);
    assert_eq!(d.classification, 0);
    assert_eq!(d.speaker_organizer, 0);
    assert_eq!(d.personal_classification, 0);
    assert_eq!(d.series_same_room, 1);
    assert_eq!(d.series_back_to_back, 1);
}

#[test]
fn selective_counts_leave_other_types_at_zero() {
    let ms = four_sessions();
    let c = calculate_selective_conflicts(&vec![vec![0, 2], vec![1, 3]], &ms, ConflictType::Classification, &[ConflictType::SpeakerOrganizer]);
    assert_eq!(c.classification, 1);
    assert_eq!(c.speaker_organizer, 1);
    assert_eq!(c.personal_classification, 0);
}

#[test]
fn entries_that_are_not_sessions_are_skipped() {
    let ms = four_sessions();
    let c = calculate_all_conflicts(&vec![vec![0, 9, 2]], &ms);
    assert_eq!(c.classification, 1);
}

#[test]
fn counts_fit_limit() {
    assert!(schedule_counts_fit(&vec![vec![0; 100]; 3]));
    assert!(schedule_counts_fit(&vec![vec![0; 65536]]));
    assert!(!schedule_counts_fit(&vec![vec![0; 65537]]));
}

#[test]
fn protection_strict_and_flexible() {
    let old = ConflictCounts { speaker_organizer: 2, ..ConflictCounts::default() };
    let up_one = ConflictCounts { speaker_organizer: 3, ..ConflictCounts::default() };
    let up_three = ConflictCounts { speaker_organizer: 5, ..ConflictCounts::default() };
    let p = [ConflictType::SpeakerOrganizer];
    assert!(violates_protected_constraints(&up_one, &old, &p, true));
    assert!(!violates_protected_constraints(&up_one, &old, &p, false));
    assert!(violates_protected_constraints(&up_three, &old, &p, false));
    assert!(!violates_protected_constraints(&up_three, &old, &[], true));
    assert!(!violates_protected_constraints(&old, &up_three, &p, true));
}

#[test]
fn swap_and_swap_back() {
    let mut s = vec![vec![1, 2, 3], vec![4, 5]];
    apply_swap(&mut s, (0, 2), (1, 0));
    assert_eq!(s, vec![vec![1, 2, 4], vec![3, 5]]);
    apply_swap(&mut s, (0, 2), (1, 0));
    assert_eq!(s, vec![vec![1, 2, 3], vec![4, 5]]);
}

#[test]
fn three_way_swap_rotates() {
    let mut s = vec![vec![10, 20], vec![30]];
    apply_3way_swap(&mut s, (0, 0), (0, 1), (1, 0));
    assert_eq!(s, vec![vec![30, 10], vec![20]]);
}

#[test]
fn position_of_a_session() {
    let s = vec![vec![1, 2], vec![3, 2]];
    assert_eq!(find_session_position(&s, 2), Some((0, 1)));
    assert_eq!(find_session_position(&s, 3), Some((1, 0)));
    assert_eq!(find_session_position(&s, 7), None);
}

#[test]
fn safe_slots_avoid_matching_notes() {
    let ms = four_sessions();
    let s = vec![vec![0, 3], vec![1], vec![2]];
    assert_eq!(find_safe_slots_for_session(2, &s, &ms), vec![1]);
    assert_eq!(find_safe_slots_for_session(3, &s, &ms), vec![0, 1, 2]);
    assert_eq!(find_safe_slots_for_session(9, &s, &ms), Vec::<usize>::new());
}

#[test]
fn conflicting_rooms_of_a_slot() {
    let ms = four_sessions();
    assert_eq!(find_conflicting_sessions(&[3, 0, 2], &ms), vec![1, 2]);
    assert_eq!(find_conflicting_sessions(&[3, 1], &ms), Vec::<usize>::new());
}

#[test]
fn difficulty_formula() {
    let ms = four_sessions();
    assert_eq!(calculate_session_difficulty(&ms[0]), 10 + 4 + 5);
    assert_eq!(calculate_session_difficulty(&ms[3]), 10 + 2);
}

#[test]
fn initial_schedule_hardest_first() {
    let ms = four_sessions();
    let config = SchedulerConfig { num_sessions: 2, num_rooms: 2, ..SchedulerConfig::default() };
    let s = create_initial_schedule(&ms, &config);
    assert_eq!(s, vec![vec![0, 1], vec![2, 3]]);
}

#[test]
fn initial_schedule_places_each_once_when_all_fit() {
    let ms = four_sessions();
    let config = SchedulerConfig { num_sessions: 3, num_rooms: 3, ..SchedulerConfig::default() };
    let s = create_initial_schedule(&ms, &config);
    assert_eq!(s.len(), 3);
    let mut all: Vec<usize> = s.iter().flatten().copied().collect();
    all.sort();
    assert_eq!(all, vec![0, 1, 2, 3]);
    assert!(s.iter().all(|slot| slot.len() <= 3));
}

#[test]
fn initial_schedule_leaves_out_what_does_not_fit() {
    let ms = four_sessions();
    let config = SchedulerConfig { num_sessions: 1, num_rooms: 3, ..SchedulerConfig::default() };
    let s = create_initial_schedule(&ms, &config);
    assert_eq!(s, vec![vec![0, 1, 2]]);
}

#[test]
fn random_swap_draws_two_slots() {
    let s = vec![vec![1, 2, 3], vec![4, 5]];
    for _ in 0..50 {
        let (p1, p2) = pick_random_swap(&s).expect("two non-empty slots");
        assert_ne!(p1.0, p2.0);
        assert!(p1.0 < 2 && p2.0 < 2);
        assert!(p1.1 < s[p1.0].len() && p2.1 < s[p2.0].len());
    }
    assert_eq!(pick_random_swap(&vec![vec![1, 2]]), None);
    assert_eq!(pick_random_swap(&vec![vec![1], vec![]]), None);
}

#[test]
fn random_three_way_draws_distinct_positions() {
    let s = vec![vec![1, 2], vec![3]];
    for _ in 0..50 {
        let (a, b, c) = pick_random_3way_swap(&s).expect("three entries");
        assert!(a != b && b != c && a != c);
        for p in [a, b, c] {
            assert!(p.0 < s.len() && p.1 < s[p.0].len());
        }
    }
    assert_eq!(pick_random_3way_swap(&vec![vec![1, 2]]), None);
}

#[test]
fn sorted_parameters_follow_ranks() {
    let engine = HierarchicalEngine::new(SchedulerConfig::default());
    assert_eq!(
        engine.get_sorted_parameters(),
        vec![
            (ConflictType::SpeakerOrganizer, 1),
            (ConflictType::PersonalClassification, 2),
            (ConflictType::SeriesBackToBack, 3),
            (ConflictType::SeriesSameRoom, 4),
            (ConflictType::Classification, 5),
        ]
    );
    let tied = HierarchicalEngine::new(SchedulerConfig {
        classification_rank: 1,
        speaker_org_rank: 1,
        personal_class_rank: 0,
        series_room_rank: 2,
        series_back_rank: 0,
        ..SchedulerConfig::default()
    });
    assert_eq!(
        tied.get_sorted_parameters(),
        vec![
            (ConflictType::PersonalClassification, 0),
            (ConflictType::SeriesBackToBack, 0),
            (ConflictType::Classification, 1),
            (ConflictType::SpeakerOrganizer, 1),
            (ConflictType::SeriesSameRoom, 2),
        ]
    );
}

#[test]
fn pruning_keeps_the_best_counts() {
    let engine = HierarchicalEngine::new(SchedulerConfig { max_solutions_per_level: 2, ..SchedulerConfig::default() });
    let mk = |c: i32| Solution::new(vec![vec![c as usize]], ConflictCounts { classification: c, ..ConflictCounts::default() });
    let kept = engine.prune_solutions(vec![mk(5), mk(1), mk(3), mk(1)], ConflictType::Classification);
    let counts: Vec<i32> = kept.iter().map(|s| s.conflicts.classification).collect();
    assert_eq!(counts, vec![1, 1]);
    assert_eq!(kept[0].schedule, vec![vec![1]]);
    let few = engine.prune_solutions(vec![mk(5), mk(1)], ConflictType::Classification);
    let counts: Vec<i32> = few.iter().map(|s| s.conflicts.classification).collect();
    assert_eq!(counts, vec![5, 1]);
}

#[test]
fn nothing_ranked_means_nothing_changes() {
    let ms = four_sessions();
    let config = SchedulerConfig {
        classification_rank: 0,
        speaker_org_rank: 0,
        personal_class_rank: 0,
        series_room_rank: 0,
        series_back_rank: 0,
        ..SchedulerConfig::default()
    };
    let schedule = vec![vec![0, 2], vec![1, 3]];
    let start = Solution::new(schedule.clone(), calculate_all_conflicts(&schedule, &ms));
    let out = HierarchicalEngine::new(config).optimize(vec![start], &ms);
    assert_eq!(out.len(), 1);
    assert_eq!(out[0].schedule, schedule);
}

#[test]
fn optimizing_removes_a_speaker_clash_and_keeps_every_session() {
    let ms = four_sessions();
    let config = SchedulerConfig { num_sessions: 2, num_rooms: 2, ..SchedulerConfig::default() };
    let schedule = vec![vec![0, 2], vec![1, 3]];
    let start_counts = calculate_all_conflicts(&schedule, &ms);
    let out = HierarchicalEngine::new(config).optimize(vec![Solution::new(schedule, start_counts)], &ms);
    assert!(!out.is_empty());
    for s in &out {
        let mut all: Vec<usize> = s.schedule.iter().flatten().copied().collect();
        all.sort();
        assert_eq!(all, vec![0, 1, 2, 3]);
        assert!(s.conflicts.speaker_organizer <= start_counts.speaker_organizer);
        assert_eq!(s.fitness_score, Solution::calculate_fitness(&s.conflicts));
    }
}

#[test]
fn ordering_cleanup_puts_part_one_first() {
    let ms = four_sessions();
    let mut s = vec![vec![1, 2], vec![0, 3]];
    assert!(has_chronology_violation(&s, &ms));
    fix_series_ordering(&mut s, &ms);
    assert_eq!(s, vec![vec![0, 2], vec![1, 3]]);
    assert!(!has_chronology_violation(&s, &ms));
}

#[test]
fn consolidation_puts_both_parts_in_one_room() {
    let ms = four_sessions();
    let mut s = vec![vec![0, 2], vec![3, 1]];
    assert!(!is_series_consolidated("alpha", &s, &ms));
    consolidate_series_rooms(&mut s, &ms);
    assert_eq!(s, vec![vec![2, 0], vec![3, 1]]);
    assert!(is_series_consolidated("alpha", &s, &ms));
}

#[test]
fn consolidated_series_is_recognised() {
    let ms = four_sessions();
    assert!(is_series_consolidated("alpha", &vec![vec![0, 2], vec![1, 3]], &ms));
}

#[test]
fn consolidation_skips_a_room_the_slot_lacks() {
    let ms = four_sessions();
    let mut s = vec![vec![0], vec![3, 1]];
    consolidate_series_rooms(&mut s, &ms);
    assert_eq!(s, vec![vec![0], vec![1, 3]]);
}

fn titled(title: &str, key: Option<&str>) -> Minisymposium {
    session(0, title, "", &[], &[], &[], key)
}

#[test]
fn ordering_repeats_passes_until_the_parts_are_in_order() {
    let ms = vec![titled("S - Part 1", Some("s")), titled("S - Part 2", Some("s")), titled("S - Part 3", Some("s"))];
    let mut s = vec![vec![2], vec![1], vec![0]];
    fix_series_ordering(&mut s, &ms);
    assert_eq!(s, vec![vec![0], vec![1], vec![2]]);
    assert!(!has_chronology_violation(&s, &ms));
}

#[test]
fn consolidation_of_two_parts_in_different_rooms() {
    let ms = vec![titled("S - Part 1", None), titled("S - Part 2", None), titled("A", None), titled("B", None)];
    let mut s = vec![vec![0, 2], vec![3, 1]];
    consolidate_series_rooms(&mut s, &ms);
    assert!(s == vec![vec![2, 0], vec![3, 1]] || s == vec![vec![0, 2], vec![1, 3]]);
    assert!(is_series_consolidated("s", &s, &ms));
}

#[test]
fn series_placement_keeps_every_session_once() {
    let ms = vec![titled("Intro", None), titled("S - Part 1", Some("s")), titled("Other", None), titled("S - Part 2", Some("s"))];
    let mut s = vec![vec![0], vec![1], vec![2], vec![3]];
    let _ = try_series_placement(&mut s, &ms, &ConflictCounts::default(), &[], true);
    let mut all: Vec<usize> = s.iter().flatten().copied().collect();
    all.sort();
    assert_eq!(all, vec![0, 1, 2, 3]);
    assert_eq!(s.len(), 4);
    assert!(s.iter().all(|slot| slot.len() == 1));
}

#[test]
fn random_step_makes_a_drawn_exchange_that_lowers_the_count() {
    let ms = four_sessions();
    let best = vec![vec![0, 2], vec![1, 3]];
    let old = calculate_all_conflicts(&best, &ms);
    assert_eq!(old.classification, 1);
    let r = random_swap_step(ConflictType::Classification, &best, Some(((0, 0), (1, 1))), &ms, &old, &[], true);
    assert_eq!(r, vec![vec![3, 2], vec![1, 0]]);
    assert_eq!(calculate_all_conflicts(&r, &ms).classification, 0);
}

#[test]
fn random_step_keeps_the_schedule_when_nothing_improves() {
    let ms = four_sessions();
    let best = vec![vec![0, 2], vec![1, 3]];
    let old = calculate_all_conflicts(&best, &ms);
    let same = random_swap_step(ConflictType::Classification, &best, Some(((0, 0), (0, 1))), &ms, &old, &[], true);
    assert_eq!(same, best);
    let none = random_swap_step(ConflictType::Classification, &best, None, &ms, &old, &[], true);
    assert_eq!(none, best);
}

#[test]
fn consolidation_leaves_series_in_one_room_alone() {
    let ms = vec![
        titled("S - Part 1", None),
        titled("S - Part 2", None),
        titled("T - Part 1", None),
        titled("T - Part 2", None),
        titled("U - Part 1", None),
        titled("U - Part 2", None),
        titled("X", None),
        titled("Y", None),
    ];
    let mut s = vec![vec![0, 2], vec![4, 1], vec![6, 3], vec![5, 7]];
    consolidate_series_rooms(&mut s, &ms);
    assert_eq!(s, vec![vec![0, 2], vec![4, 1], vec![6, 3], vec![5, 7]]);
    assert!(is_series_consolidated("t", &s, &ms));
    assert!(is_series_consolidated("u", &s, &ms));
    assert!(!is_series_consolidated("s", &s, &ms));
}
