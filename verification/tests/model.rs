use conference_scheduler::model::{ConflictCounts, ConflictType, SchedulerConfig, Solution};

#[test]
fn default_configuration() {
    let c = SchedulerConfig::default();
    assert_eq!(c.classification_rank, 5);
    assert_eq!(c.speaker_org_rank, 1);
    assert_eq!(c.personal_class_rank, 2);
    assert_eq!(c.series_room_rank, 4);
    assert_eq!(c.series_back_rank, 3);
    assert!(c.strict_hierarchy);
    assert_eq!(c.max_solutions_per_level, 10);
    assert_eq!(c.num_sessions, 8);
    assert_eq!(c.num_rooms, 12);
}

#[test]
fn ranks_and_names() {
    let c = SchedulerConfig::default();
    assert_eq!(ConflictType::Classification.get_rank(&c), 5);
    assert_eq!(ConflictType::SpeakerOrganizer.get_rank(&c), 1);
    assert_eq!(ConflictType::SeriesBackToBack.get_rank(&c), 3);
    assert_eq!(ConflictType::SpeakerOrganizer.name(), "Speaker/Organizer Conflicts");
    assert_eq!(ConflictType::SeriesSameRoom.name(), "Series Same-Room Conflicts");
}

#[test]
fn set_then_get_and_total() {
    let mut c = ConflictCounts::default();
    assert_eq!(c.total(), 0);
    c.set(ConflictType::PersonalClassification, 4);
    c.set(ConflictType::Classification, 7);
    assert_eq!(c.get(ConflictType::PersonalClassification), 4);
    assert_eq!(c.get(ConflictType::Classification), 7);
    assert_eq!(c.get(ConflictType::SeriesSameRoom), 0);
    assert_eq!(c.total(), 11);
    c.set(ConflictType::Classification, 1);
    assert_eq!(c.get(ConflictType::Classification), 1);
    assert_eq!(c.get(ConflictType::PersonalClassification), 4);
}

#[test]
fn fitness_weights() {
    let c = ConflictCounts {
        classification: 1,
        speaker_organizer: 1,
        personal_classification: 1,
        series_same_room: 1,
        series_back_to_back: 1,
    };
    assert_eq!(Solution::calculate_fitness(&c), 31);
    let d = ConflictCounts { classification: 2, ..ConflictCounts::default() };
    assert_eq!(Solution::calculate_fitness(&d), 20);
}

#[test]
fn solution_score_follows_counts() {
    let mut s = Solution::new(vec![vec![0, 1]], ConflictCounts { speaker_organizer: 3, ..ConflictCounts::default() });
    assert_eq!(s.fitness_score, 24);
    s.conflicts.series_back_to_back = 2;
    s.update_fitness();
    assert_eq!(s.fitness_score, 30);
    assert_eq!(s.schedule, vec![vec![0, 1]]);
}
