use conference_scheduler::model::ContributedLecture;
use conference_scheduler::preprocess::CLPreprocessor;

fn cl(id: i32, title: &str, speaker: &str, codes: &[i32], notes: &str) -> ContributedLecture {
    ContributedLecture { id, title: title.to_string(), speaker: speaker.to_string(), classification: codes.to_vec(), notes: notes.to_string() }
}

#[test]
fn cl_group_as_a_minisymposium() {
    let p = CLPreprocessor::new();
    let ls = vec![cl(11, "T0", "A", &[700, 600, 700], "x"), cl(12, "T1", "B", &[600], ""), cl(13, "", "C", &[100], "y")];
    let m = p.create_cl_minisymposium(&ls, &vec![0, 1, 2], 10000);
    assert_eq!(m.id, 10000);
    assert_eq!(m.title, "CL Group 10000 - T0 | T1");
    assert_eq!(m.notes, "x | y");
    assert_eq!(m.speakers, vec!["A".to_string(), "B".to_string(), "C".to_string()]);
    assert!(m.organizers.is_empty());
    assert_eq!(m.classification, vec![100, 600, 700]);
    assert_eq!(m.cl_lecture_ids, vec![11, 12, 13]);
    assert!(m.is_cl_minisymposium);
    assert_eq!(m.series_key, None);
}

#[test]
fn cl_group_skips_indices_past_the_end() {
    let p = CLPreprocessor::new();
    let ls = vec![cl(11, "T0", "A", &[1], "x")];
    let m = p.create_cl_minisymposium(&ls, &vec![0, 5], 7);
    assert_eq!(m.cl_lecture_ids, vec![11]);
    assert_eq!(m.title, "CL Group 7 - T0");
}

#[test]
fn one_lecture_per_speaker() {
    let p = CLPreprocessor::new();
    let ls = vec![cl(1, "a", "Ann", &[], ""), cl(2, "b", "", &[], ""), cl(3, "c", " ann ", &[], ""), cl(4, "d", "", &[], "")];
    assert_eq!(p.filter_duplicate_speakers(&ls, &vec![0, 1, 2, 3]), vec![0, 1, 3]);
}

#[test]
fn groups_of_four_by_notes() {
    let p = CLPreprocessor::new();
    let ls = vec![
        cl(1, "a", "S1", &[1], "Krylov"),
        cl(2, "b", "S2", &[1], "krylov"),
        cl(3, "c", "S3", &[2], "mesh"),
        cl(4, "d", "S4", &[2], " KRYLOV "),
        cl(5, "e", "S5", &[3], "krylov"),
        cl(6, "f", "S6", &[3], "krylov"),
        cl(7, "g", "S7", &[3], "mesh"),
    ];
    let mut used = vec![false; 7];
    let mut group_id = 10000;
    let groups = p.group_by_notes(&ls, &mut used, &mut group_id);
    assert_eq!(groups.len(), 1);
    assert_eq!(groups[0].cl_lecture_ids, vec![1, 2, 4, 5]);
    assert_eq!(groups[0].id, 10000);
    assert_eq!(group_id, 10001);
    assert_eq!(used, vec![true, true, false, true, true, false, false]);
}

#[test]
fn lectures_already_used_are_not_regrouped() {
    let p = CLPreprocessor::new();
    let ls = vec![cl(1, "a", "S1", &[], "k"), cl(2, "b", "S2", &[], "k"), cl(3, "c", "S3", &[], "k"), cl(4, "d", "S4", &[], "k")];
    let mut used = vec![true, false, false, false];
    let mut group_id = 5;
    let groups = p.group_by_notes(&ls, &mut used, &mut group_id);
    assert!(groups.is_empty());
    assert_eq!(group_id, 5);
}

#[test]
fn groups_by_classification_take_the_three_best_ranked() {
    let p = CLPreprocessor::new();
    let ls = vec![
        cl(1, "a", "Ann", &[1], ""),
        cl(2, "b", " ann ", &[1], ""),
        cl(3, "c", "Bob", &[1], ""),
        cl(4, "d", "", &[1], ""),
        cl(5, "e", "Cid", &[1], ""),
        cl(6, "f", "Dan", &[1], ""),
    ];
    let mut used = vec![false, false, false, false, false, true];
    let mut group_id = 10;
    let ranked = vec![
        vec![1, 4, 3, 2, 0],
        vec![0, 2, 3, 4, 1],
        vec![0, 1, 2, 3, 4],
        vec![0, 1, 2, 3, 4],
        vec![0, 1, 2, 3, 4],
        vec![0, 1, 2, 3, 4],
    ];
    let groups = p.group_by_classification(&ls, &mut used, &mut group_id, &ranked);
    assert_eq!(groups.len(), 2);
    assert_eq!(groups[0].cl_lecture_ids, vec![1, 5, 4, 3]);
    assert_eq!(groups[0].id, 10);
    assert_eq!(groups[1].cl_lecture_ids, vec![2]);
    assert_eq!(groups[1].id, 11);
    assert_eq!(group_id, 12);
    assert_eq!(used, vec![true; 6]);
}

#[test]
fn both_grouping_phases_place_every_unused_lecture_once() {
    let p = CLPreprocessor::new();
    let ls = vec![
        cl(1, "a", "S1", &[1], "krylov"),
        cl(2, "b", "S2", &[1], "krylov"),
        cl(3, "c", "S3", &[2], "krylov"),
        cl(4, "d", "S4", &[2], "krylov"),
        cl(5, "e", "S5", &[3], "krylov"),
        cl(6, "f", "S6", &[3], ""),
        cl(7, "g", "S7", &[3], "mesh"),
        cl(8, "h", "S8", &[4], ""),
    ];
    let mut used = vec![false, false, false, false, false, false, false, true];
    let mut group_id = 100;
    let by_notes = p.group_by_notes(&ls, &mut used, &mut group_id);
    let remaining: Vec<usize> = (0..ls.len()).filter(|&i| !used[i]).collect();
    let ranked: Vec<Vec<usize>> = (0..ls.len()).map(|_| remaining.clone()).collect();
    let by_class = p.group_by_classification(&ls, &mut used, &mut group_id, &ranked);
    let all: Vec<_> = by_notes.iter().chain(by_class.iter()).collect();
    for (g, m) in all.iter().enumerate() {
        assert_eq!(m.id, 100 + g as i32);
        assert!(!m.cl_lecture_ids.is_empty() && m.cl_lecture_ids.len() <= 4);
    }
    let mut ids: Vec<i32> = all.iter().flat_map(|m| m.cl_lecture_ids.clone()).collect();
    ids.sort();
    assert_eq!(ids, vec![1, 2, 3, 4, 5, 6, 7]);
    assert_eq!(used, vec![true; 8]);
    assert_eq!(group_id, 100 + all.len() as i32);
}
