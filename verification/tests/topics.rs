use conference_scheduler::model::ContributedLecture;
use conference_scheduler::preprocess::{CLPreprocessor, NotesMatch};
use conference_scheduler::topics::{topic_overlap, topic_words_of};

#[test]
fn topic_words_of_notes() {
    assert_eq!(
        topic_words_of("Graph partitioning, graph coloring and more!"),
        vec!["graph", "partitioning", "graph", "coloring", "more"].into_iter().map(String::from).collect::<Vec<_>>()
    );
    assert_eq!(topic_words_of("a bb ccc ...."), Vec::<String>::new());
    assert_eq!(topic_words_of("Ärå"), vec!["ärå".to_string()]);
}

#[test]
fn overlap_of_topic_words() {
    assert_eq!(topic_overlap("graph coloring", "Graph partitioning."), (1, 3));
    assert_eq!(topic_overlap("", "graph"), (0, 1));
    assert_eq!(topic_overlap("the a", "of"), (0, 0));
    assert_eq!(topic_overlap("graph graph", "GRAPH"), (1, 1));
}

fn lecture(speaker: &str, codes: &[i32], notes: &str) -> ContributedLecture {
    ContributedLecture { id: 1, title: "t".to_string(), speaker: speaker.to_string(), classification: codes.to_vec(), notes: notes.to_string() }
}

#[test]
fn compatibility_terms_of_two_lectures() {
    let p = CLPreprocessor::new();
    let t = p.lecture_compatibility_terms(&lecture(" Jane Smith", &[600, 700, 600], "Krylov"), &lecture("jane smith", &[600], "krylov methods"));
    assert_eq!(t.classification_matches, 2);
    assert!(t.same_speaker);
    assert_eq!(t.notes_match, NotesMatch::Partial);
    assert_eq!((t.shared_topic_words, t.all_topic_words), (1, 2));
    let u = p.lecture_compatibility_terms(&lecture("", &[], "graph"), &lecture("", &[1], " GRAPH "));
    assert_eq!(u.classification_matches, 0);
    assert!(!u.same_speaker);
    assert_eq!(u.notes_match, NotesMatch::Same);
    let v = p.lecture_compatibility_terms(&lecture("A", &[], "x"), &lecture("B", &[], ""));
    assert_eq!(v.notes_match, NotesMatch::Unrelated);
}
