use conference_scheduler::conflict_detection::{
    extract_series_info, get_period_order, has_classification_conflict, has_personal_classification_conflict,
    has_series_back_to_back_conflict, has_series_chronological_violation, has_series_room_conflict,
    has_speaker_organizer_conflict, is_series_sibling, normalize_exact, series_from_match,
};
use conference_scheduler::text::{roman_numeral_value, roman_to_int};

fn owned(v: &[&str]) -> Vec<String> {
    v.iter().map(|s| s.to_string()).collect()
}

#[test]
fn normalize_removes_spaces_and_lowercases() {
    assert_eq!(normalize_exact("  John  Smith "), "johnsmith");
}

#[test]
fn normalize_of_blank_is_empty() {
    assert_eq!(normalize_exact(" \t "), "");
}

#[test]
fn series_roman_part() {
    assert_eq!(extract_series_info("Model Reduction - Part II"), Some(("modelreduction".to_string(), 2)));
}

#[test]
fn series_roman_part_of_total() {
    assert_eq!(extract_series_info("Graph Methods - Part III of IV"), Some(("graphmethods".to_string(), 3)));
}

#[test]
fn series_decimal_part_of_total() {
    assert_eq!(extract_series_info("Fast Solvers Part 2 of 3"), Some(("fastsolvers".to_string(), 2)));
}

#[test]
fn series_decimal_part_at_end() {
    assert_eq!(extract_series_info("Sparse Linear Algebra - Part 12"), Some(("sparselinearalgebra".to_string(), 12)));
}

#[test]
fn series_absent() {
    assert_eq!(extract_series_info("No series here"), None);
}

#[test]
fn series_part_zero_is_not_a_part() {
    assert_eq!(extract_series_info("Topic - Part 0"), None);
}

#[test]
fn series_title_that_is_only_a_part_marker() {
    assert_eq!(extract_series_info("Part II"), None);
}

#[test]
fn roman_numerals() {
    assert_eq!(roman_to_int("IV"), Some(4));
    assert_eq!(roman_to_int("XIV"), Some(14));
    assert_eq!(roman_to_int("mcmxc"), Some(1990));
    assert_eq!(roman_to_int("XIIZ"), None);
    assert_eq!(roman_to_int(""), Some(0));
}

#[test]
fn classification_conflict_on_shared_code() {
    assert!(has_classification_conflict(&owned(&["600", "700"]), &owned(&["800", "700"])));
}

#[test]
fn classification_conflict_needs_a_shared_code() {
    assert!(!has_classification_conflict(&owned(&["600", "700"]), &owned(&["800"])));
    assert!(!has_classification_conflict(&owned(&[]), &owned(&["800"])));
}

#[test]
fn speaker_organizer_conflict_across_roles() {
    assert!(has_speaker_organizer_conflict(&owned(&["A. Smith"]), &owned(&[]), &owned(&[]), &owned(&["a.smith"])));
    assert!(has_speaker_organizer_conflict(&owned(&[]), &owned(&["Chen"]), &owned(&["Liu", "CHEN"]), &owned(&[])));
}

#[test]
fn speaker_organizer_conflict_needs_a_shared_person() {
    assert!(!has_speaker_organizer_conflict(&owned(&["Liu"]), &owned(&["Chen"]), &owned(&["Krause"]), &owned(&["Anzt"])));
}

#[test]
fn empty_names_never_conflict() {
    assert!(!has_speaker_organizer_conflict(&owned(&[" "]), &owned(&[]), &owned(&[""]), &owned(&[])));
}

#[test]
fn personal_classification_conflict_after_normalising() {
    assert!(has_personal_classification_conflict("Linear Algebra", "linear  algebra"));
}

#[test]
fn personal_classification_conflict_is_exact() {
    assert!(!has_personal_classification_conflict("linear algebra", "algebra"));
    assert!(!has_personal_classification_conflict("", ""));
}

#[test]
fn personal_classification_ignores_header_cells() {
    assert!(!has_personal_classification_conflict("Notes", "notes"));
}

#[test]
fn period_order_values() {
    assert_eq!(get_period_order("TUE First Period"), 0);
    assert_eq!(get_period_order("TUE Second Period"), 1);
    assert_eq!(get_period_order("WED First Period"), 2);
    assert_eq!(get_period_order("THU Second Period"), 5);
    assert_eq!(get_period_order("FRI Second Period"), 7);
    assert_eq!(get_period_order("Saturday"), 999);
}

#[test]
fn series_siblings_share_a_base() {
    assert!(is_series_sibling("Graphs - Part I", "graphs - Part II"));
    assert!(!is_series_sibling("Graphs - Part I", "Meshes - Part I"));
    assert!(!is_series_sibling("Graphs", "Graphs"));
}

#[test]
fn series_room_conflict_cases() {
    assert!(has_series_room_conflict("X - Part I", "1", "X - Part II", "2"));
    assert!(!has_series_room_conflict("X - Part I", "1", "X - Part II", "1"));
    assert!(!has_series_room_conflict("X - Part I", "1", "Y - Part II", "2"));
}

#[test]
fn series_back_to_back_cases() {
    assert!(!has_series_back_to_back_conflict("X - Part I", "TUE First Period", "X - Part II", "TUE Second Period"));
    assert!(has_series_back_to_back_conflict("X - Part I", "TUE First Period", "X - Part II", "WED First Period"));
    assert!(has_series_back_to_back_conflict("X - Part I", "TUE First Period", "X - Part II", "TUE First Period"));
    assert!(!has_series_back_to_back_conflict("X - Part I", "TUE First Period", "X - Part III", "FRI First Period"));
}

#[test]
fn chronological_violation_cases() {
    assert!(has_series_chronological_violation("X - Part II", "TUE First Period", "X - Part I", "TUE Second Period"));
    assert!(!has_series_chronological_violation("X - Part I", "TUE First Period", "X - Part II", "TUE Second Period"));
    assert!(!has_series_chronological_violation("X - Part I", "TUE First Period", "X - Part II", "TUE First Period"));
}

fn found(whole: &str, group: &str) -> Option<(String, String)> {
    Some((whole.to_string(), group.to_string()))
}

#[test]
fn a_roman_match_names_the_part() {
    assert_eq!(
        series_from_match("Graph Methods - Part II", 2, found(" - Part II", "II")),
        Some(Some(("graphmethods".to_string(), 2)))
    );
}

#[test]
fn a_decimal_match_names_the_part() {
    assert_eq!(
        series_from_match("Graph Methods Part 3 of 4", 5, found("Part 3 of 4", "3")),
        Some(Some(("graphmethods".to_string(), 3)))
    );
}

#[test]
fn no_match_or_an_empty_base_tries_the_next_pattern() {
    assert_eq!(series_from_match("Graph Methods", 0, None), None);
    assert_eq!(series_from_match(" - Part II", 2, found(" - Part II", "II")), None);
    assert_eq!(series_from_match("Methods Part 0", 7, found("Part 0", "0")), None);
}

#[test]
fn an_unreadable_part_number_ends_the_search() {
    assert_eq!(series_from_match("Methods - Part IQ", 2, found(" - Part IQ", "IQ")), Some(None));
}

#[test]
fn roman_numerals_in_upper_case() {
    assert_eq!(roman_numeral_value("XIV"), Some(14));
    assert_eq!(roman_numeral_value("MCMXCIV"), Some(1994));
    assert_eq!(roman_numeral_value("xiv"), None);
    assert_eq!(roman_numeral_value(""), Some(0));
    assert_eq!(roman_to_int("xiv"), Some(14));
}
