use conference_scheduler::page::{count_page_conflicts, PageSession};
use conference_scheduler::text::split_any_trimmed;

fn ps(period: Option<&str>, room: &str, title: &str, codes: &str, orgs: &str, speakers: &str, notes: &str) -> PageSession {
    PageSession {
        period: period.map(|p| p.to_string()),
        room: room.to_string(),
        title: title.to_string(),
        classification: codes.to_string(),
        organizers: orgs.to_string(),
        speakers: speakers.to_string(),
        notes: notes.to_string(),
    }
}

#[test]
fn page_conflicts_counted() {
    let s = vec![
        ps(Some("TUE First Period"), "1", "Alpha - Part I", "600; 700", "Chen", "Liu | Krause", "graph"),
        ps(Some("TUE First Period"), "2", "Alpha - Part II", "700", "", "krause", "Graph"),
        ps(Some("WED First Period"), "1", "Beta", "600", "Liu", "", "graph"),
        ps(None, "1", "Gamma", "600", "Liu", "", "graph"),
    ];
    let c = count_page_conflicts(&s);
    assert_eq!(c.classification, 1);
    assert_eq!(c.personal, 1);
    assert_eq!(c.personal_classification, 1);
    assert_eq!(c.series_room, 1);
    assert_eq!(c.series_back_to_back, 1);
    assert_eq!(c.total, 5);
}

#[test]
fn page_without_sessions() {
    let c = count_page_conflicts(&vec![]);
    assert_eq!(c.total, 0);
}

#[test]
fn names_split_on_three_separators() {
    assert_eq!(split_any_trimmed(" a ;b,| c ", &vec![';', ',', '|']), vec!["a".to_string(), "b".to_string(), "c".to_string()]);
}
