//! Conflict detection shared by schedule generation and schedule analysis:
//! the same pairwise tests decide what counts as a conflict in both places.
use vstd::prelude::*;
use crate::text::{
    chars_of, contains_text, has_substring, lowercase_of, parse_usize, parse_usize_spec,
    remove_all, remove_all_chars, roman_spec, roman_to_int, string_of, strip_whitespace, strip_ws,
    to_lowercase, trim_chars, trim_spec,
};

verus! {

// ===========================================================================
// Normalisation
// ===========================================================================

/// A name or keyword as compared for exact matching: all whitespace removed,
/// then lower-cased.
pub open spec fn normalize_spec(t: Seq<char>) -> Seq<char> {
    lowercase_of(strip_ws(t))
}

/// Normalises text for exact matching: removes all whitespace and lower-cases
/// what is left. Used for person names and notes keywords.
pub fn normalize_exact(text: &str) -> (r: String)
    ensures
        r@ == normalize_spec(text@),
{
    let v = chars_of(text);
    let w = strip_whitespace(&v);
    let s = string_of(&w);
    to_lowercase(s.as_str())
}

// ===========================================================================
// Classification conflicts
// ===========================================================================

/// The two code lists share at least one code.
pub open spec fn codes_overlap(c1: Seq<String>, c2: Seq<String>) -> bool {
    exists|i: int, j: int| 0 <= i < c1.len() && 0 <= j < c2.len() && #[trigger] c1[i]@ == #[trigger] c2[j]@
}

/// Two sessions have a classification conflict when they share any
/// classification code.
pub fn has_classification_conflict(classification1: &[String], classification2: &[String]) -> (r:
    bool)
    ensures
        r == codes_overlap(classification1@, classification2@),
{
    let mut i: usize = 0;
    while i < classification1.len()
        invariant
            i <= classification1.len(),
            forall|a: int, b: int|
                0 <= a < i && 0 <= b < classification2@.len() ==> #[trigger] classification1@[a]@
                    != #[trigger] classification2@[b]@,
        decreases classification1.len() - i,
    {
        let mut j: usize = 0;
        while j < classification2.len()
            invariant
                i < classification1.len(),
                j <= classification2.len(),
                forall|a: int, b: int|
                    0 <= a < i && 0 <= b < classification2@.len() ==> #[trigger] classification1@[a]@
                        != #[trigger] classification2@[b]@,
                forall|b: int| 0 <= b < j ==> classification1@[i as int]@ != #[trigger] classification2@[b]@,
            decreases classification2.len() - j,
        {
            if classification1[i] == classification2[j] {
                return true;
            }
            j = j + 1;
        }
        i = i + 1;
    }
    false
}

// ===========================================================================
// Speaker / organizer conflicts
// ===========================================================================

/// Some person of `p1` and some person of `p2` have the same non-empty
/// normalised name.
pub open spec fn share_person(p1: Seq<String>, p2: Seq<String>) -> bool {
    exists|i: int, j: int|
        0 <= i < p1.len() && 0 <= j < p2.len() && normalize_spec(#[trigger] p1[i]@).len() > 0
            && normalize_spec(p1[i]@) == normalize_spec(#[trigger] p2[j]@)
}

/// The normalised names of `a`, in order.
fn normalized_names(a: &[String]) -> (r: Vec<String>)
    ensures
        r@.len() == a@.len(),
        forall|k: int| 0 <= k < r@.len() ==> #[trigger] r@[k]@ == normalize_spec(a@[k]@),
{
    let mut r: Vec<String> = Vec::new();
    let mut i: usize = 0;
    while i < a.len()
        invariant
            i <= a@.len(),
            r@.len() == i,
            forall|k: int| 0 <= k < i ==> #[trigger] r@[k]@ == normalize_spec(a@[k]@),
        decreases a.len() - i,
    {
        r.push(normalize_exact(a[i].as_str()));
        i = i + 1;
    }
    r
}

/// Some non-empty name of `n1` equals some name of `n2`.
pub open spec fn names_meet(n1: Seq<Seq<char>>, n2: Seq<Seq<char>>) -> bool {
    exists|i: int, j: int|
        0 <= i < n1.len() && 0 <= j < n2.len() && (#[trigger] n1[i]).len() > 0 && n1[i]
            == #[trigger] n2[j]
}

/// Whether some non-empty name of `n1` equals some name of `n2`.
fn names_match(n1: &Vec<String>, n2: &Vec<String>) -> (r: bool)
    ensures
        r == names_meet(n1@.map_values(|s: String| s@), n2@.map_values(|s: String| s@)),
{
    let ghost m1 = n1@.map_values(|s: String| s@);
    let ghost m2 = n2@.map_values(|s: String| s@);
    let mut i: usize = 0;
    while i < n1.len()
        invariant
            i <= n1@.len(),
            m1 == n1@.map_values(|s: String| s@),
            m2 == n2@.map_values(|s: String| s@),
            forall|a: int, b: int|
                0 <= a < i && 0 <= b < m2.len() ==> !((#[trigger] m1[a]).len() > 0 && m1[a]
                    == #[trigger] m2[b]),
        decreases n1.len() - i,
    {
        let mut j: usize = 0;
        while j < n2.len()
            invariant
                i < n1@.len(),
                j <= n2@.len(),
                m1 == n1@.map_values(|s: String| s@),
                m2 == n2@.map_values(|s: String| s@),
                forall|a: int, b: int|
                    0 <= a < i && 0 <= b < m2.len() ==> !((#[trigger] m1[a]).len() > 0 && m1[a]
                        == #[trigger] m2[b]),
                forall|b: int| 0 <= b < j ==> !(m1[i as int].len() > 0 && m1[i as int] == #[trigger] m2[b]),
            decreases n2.len() - j,
        {
            assert(m1[i as int] == n1@[i as int]@);
            assert(m2[j as int] == n2@[j as int]@);
            if !n1[i].as_str().is_empty() && n1[i] == n2[j] {
                assert(m1[i as int].len() > 0 && m1[i as int] == m2[j as int]);
                return true;
            }
            j = j + 1;
        }
        i = i + 1;
    }
    false
}

proof fn lemma_share_person_split(s1: Seq<String>, o1: Seq<String>, s2: Seq<String>, o2: Seq<String>)
    ensures
        share_person(s1 + o1, s2 + o2) == (share_person(s1, s2) || share_person(s1, o2)
            || share_person(o1, s2) || share_person(o1, o2)),
{
    let p1 = s1 + o1;
    let p2 = s2 + o2;
    if share_person(p1, p2) {
        let (i, j) = choose|i: int, j: int|
            0 <= i < p1.len() && 0 <= j < p2.len() && normalize_spec(#[trigger] p1[i]@).len() > 0
                && normalize_spec(p1[i]@) == normalize_spec(#[trigger] p2[j]@);
        if i < s1.len() {
            if j < s2.len() {
                assert(p1[i] == s1[i] && p2[j] == s2[j]);
            } else {
                assert(p1[i] == s1[i] && p2[j] == o2[j - s2.len()]);
            }
        } else {
            if j < s2.len() {
                assert(p1[i] == o1[i - s1.len()] && p2[j] == s2[j]);
            } else {
                assert(p1[i] == o1[i - s1.len()] && p2[j] == o2[j - s2.len()]);
            }
        }
    }
    if share_person(s1, s2) {
        let (i, j) = choose|i: int, j: int|
            0 <= i < s1.len() && 0 <= j < s2.len() && normalize_spec(#[trigger] s1[i]@).len() > 0
                && normalize_spec(s1[i]@) == normalize_spec(#[trigger] s2[j]@);
        assert(p1[i] == s1[i] && p2[j] == s2[j]);
    }
    if share_person(s1, o2) {
        let (i, j) = choose|i: int, j: int|
            0 <= i < s1.len() && 0 <= j < o2.len() && normalize_spec(#[trigger] s1[i]@).len() > 0
                && normalize_spec(s1[i]@) == normalize_spec(#[trigger] o2[j]@);
        assert(p1[i] == s1[i] && p2[j + s2.len()] == o2[j]);
    }
    if share_person(o1, s2) {
        let (i, j) = choose|i: int, j: int|
            0 <= i < o1.len() && 0 <= j < s2.len() && normalize_spec(#[trigger] o1[i]@).len() > 0
                && normalize_spec(o1[i]@) == normalize_spec(#[trigger] s2[j]@);
        assert(p1[i + s1.len()] == o1[i] && p2[j] == s2[j]);
    }
    if share_person(o1, o2) {
        let (i, j) = choose|i: int, j: int|
            0 <= i < o1.len() && 0 <= j < o2.len() && normalize_spec(#[trigger] o1[i]@).len() > 0
                && normalize_spec(o1[i]@) == normalize_spec(#[trigger] o2[j]@);
        assert(p1[i + s1.len()] == o1[i] && p2[j + s2.len()] == o2[j]);
    }
}

/// Whether some name of `a` and some name of `b` normalise to the same
/// non-empty name.
fn any_shared_name(a: &[String], b: &[String]) -> (r: bool)
    ensures
        r == share_person(a@, b@),
{
    let na = normalized_names(a);
    let nb = normalized_names(b);
    let r = names_match(&na, &nb);
    proof {
        let m1 = na@.map_values(|s: String| s@);
        let m2 = nb@.map_values(|s: String| s@);
        if r {
            let (i, j) = choose|i: int, j: int|
                0 <= i < m1.len() && 0 <= j < m2.len() && (#[trigger] m1[i]).len() > 0 && m1[i]
                    == #[trigger] m2[j];
            assert(m1[i] == normalize_spec(a@[i]@));
            assert(m2[j] == normalize_spec(b@[j]@));
        }
        if share_person(a@, b@) {
            let (i, j) = choose|i: int, j: int|
                0 <= i < a@.len() && 0 <= j < b@.len() && normalize_spec(#[trigger] a@[i]@).len()
                    > 0 && normalize_spec(a@[i]@) == normalize_spec(#[trigger] b@[j]@);
            assert(m1[i] == normalize_spec(a@[i]@));
            assert(m2[j] == normalize_spec(b@[j]@));
        }
    }
    r
}

/// Two sessions have a speaker/organizer conflict when some person (speaker
/// or organizer) of the first and some person of the second have the same
/// non-empty normalised name.
pub fn has_speaker_organizer_conflict(
    speakers1: &[String],
    organizers1: &[String],
    speakers2: &[String],
    organizers2: &[String],
) -> (r: bool)
    ensures
        r == share_person(speakers1@ + organizers1@, speakers2@ + organizers2@),
{
    proof {
        lemma_share_person_split(speakers1@, organizers1@, speakers2@, organizers2@);
    }
    any_shared_name(speakers1, speakers2) || any_shared_name(speakers1, organizers2)
        || any_shared_name(organizers1, speakers2) || any_shared_name(organizers1, organizers2)
}

// ===========================================================================
// Personal-classification conflicts
// ===========================================================================

/// Two notes fields clash when their normalised forms are equal and
/// non-empty and neither contains the header word `notes`.
pub open spec fn notes_clash(notes1: Seq<char>, notes2: Seq<char>) -> bool {
    let a = normalize_spec(notes1);
    let b = normalize_spec(notes2);
    &&& a.len() > 0
    &&& b.len() > 0
    &&& !has_substring(a, "notes"@)
    &&& !has_substring(b, "notes"@)
    &&& a == b
}

/// Two sessions have a personal-classification conflict when their notes
/// keywords match exactly after normalisation (no substring matching).
/// Empty notes and header cells (containing `notes`) never conflict.
pub fn has_personal_classification_conflict(notes1: &str, notes2: &str) -> (r: bool)
    ensures
        r == notes_clash(notes1@, notes2@),
{
    let norm1 = normalize_exact(notes1);
    let norm2 = normalize_exact(notes2);
    if norm1.as_str().is_empty() || norm2.as_str().is_empty() {
        return false;
    }
    if contains_text(norm1.as_str(), "notes") || contains_text(norm2.as_str(), "notes") {
        return false;
    }
    norm1 == norm2
}

// ===========================================================================
// Series detection
// ===========================================================================

/// The leftmost-first match of the regular expression `pattern` in `text`
/// (as the `regex` crate finds it): the text of the whole match and the text
/// of its first capture group; `None` when the pattern does not compile,
/// nothing matches, or the first group took no part in the match.
pub uninterp spec fn regex_first_match(pattern: Seq<char>, text: Seq<char>) -> Option<
    (Seq<char>, Seq<char>),
>;

/// Compiles `pattern` with `regex::Regex::new` and returns, for the first
/// match of `Regex::captures` in `text`, the texts of capture groups 0 and 1.
/// The result is named `regex_first_match` of the two arguments; nothing more
/// is claimed of it.
#[verifier::external_body]
fn regex_first_capture(pattern: &str, text: &str) -> (r: Option<(String, String)>)
    ensures
        match r {
            Some(m) => regex_first_match(pattern@, text@) == Some((m.0@, m.1@)),
            None => regex_first_match(pattern@, text@) is None,
        },
{
    match regex::Regex::new(pattern) {
        Ok(re) => match re.captures(text) {
            Some(caps) => match (caps.get(0), caps.get(1)) {
                (Some(m0), Some(m1)) => Some((m0.as_str().to_string(), m1.as_str().to_string())),
                _ => None,
            },
            None => None,
        },
        Err(_) => None,
    }
}

/// The title patterns tried in order; even positions read the part number as
/// a Roman numeral, odd positions as decimal digits.
pub open spec fn series_pattern(k: int) -> Seq<char> {
    if k == 0 {
        " - Part ([IVXLCDM]+) of ([IVXLCDM]+)"@
    } else if k == 1 {
        " - Part (\\d+) of (\\d+)"@
    } else if k == 2 {
        " - Part ([IVXLCDM]+)$"@
    } else if k == 3 {
        " - Part (\\d+)$"@
    } else if k == 4 {
        "Part ([IVXLCDM]+) of ([IVXLCDM]+)"@
    } else if k == 5 {
        "Part (\\d+) of (\\d+)"@
    } else if k == 6 {
        "Part ([IVXLCDM]+)$"@
    } else {
        "Part (\\d+)$"@
    }
}

fn series_pattern_exec(k: usize) -> (p: &'static str)
    requires
        k < 8,
    ensures
        p@ == series_pattern(k as int),
{
    if k == 0 {
        " - Part ([IVXLCDM]+) of ([IVXLCDM]+)"
    } else if k == 1 {
        " - Part (\\d+) of (\\d+)"
    } else if k == 2 {
        " - Part ([IVXLCDM]+)$"
    } else if k == 3 {
        " - Part (\\d+)$"
    } else if k == 4 {
        "Part ([IVXLCDM]+) of ([IVXLCDM]+)"
    } else if k == 5 {
        "Part (\\d+) of (\\d+)"
    } else if k == 6 {
        "Part ([IVXLCDM]+)$"
    } else {
        "Part (\\d+)$"
    }
}

/// What the match `m` of pattern `k` tells of the title: `None` when the
/// next pattern is to be tried (no match, a part number of zero, or nothing
/// left of the title once the match is removed); `Some(None)` when the part
/// number cannot be read, which ends the search; `Some(Some(info))` when the
/// title names part `info.1` of the series with normalised base `info.0`.
pub open spec fn series_match_outcome(title: Seq<char>, k: nat, m: Option<(Seq<char>, Seq<char>)>) -> Option<
    Option<(Seq<char>, nat)>,
> {
    match m {
        None => None,
        Some(m) => {
            let part = if k % 2 == 0 {
                roman_spec(m.1)
            } else {
                parse_usize_spec(m.1)
            };
            match part {
                None => Some(None),
                Some(n) => {
                    let base = trim_spec(remove_all(title, m.0));
                    if n > 0 && base.len() > 0 {
                        Some(Some((normalize_spec(base), n)))
                    } else {
                        None
                    }
                },
            }
        },
    }
}

/// Series information found by the patterns from position `k` on: the first
/// pattern whose match decides (see `series_match_outcome`) gives the answer.
pub open spec fn series_info_from(title: Seq<char>, k: nat) -> Option<(Seq<char>, nat)>
    decreases 8 - k,
{
    if k >= 8 {
        None
    } else {
        match series_match_outcome(title, k, regex_first_match(series_pattern(k as int), title)) {
            None => series_info_from(title, k + 1),
            Some(r) => r,
        }
    }
}

/// The series a title belongs to (its normalised base title) and its part
/// number, if the title names a part.
pub open spec fn series_info(title: Seq<char>) -> Option<(Seq<char>, nat)> {
    series_info_from(title, 0)
}

/// The texts of a match and of its first group, as character sequences.
pub open spec fn match_view(m: Option<(String, String)>) -> Option<(Seq<char>, Seq<char>)> {
    match m {
        Some(x) => Some((x.0@, x.1@)),
        None => None,
    }
}

/// Decides what the match `m` of pattern `k` (the whole match and its first
/// group) tells of `title`; see `series_match_outcome`.
pub fn series_from_match(title: &str, k: usize, m: Option<(String, String)>) -> (r: Option<Option<(String, usize)>>)
    ensures
        match r {
            None => series_match_outcome(title@, k as nat, match_view(m)) is None,
            Some(None) => series_match_outcome(title@, k as nat, match_view(m)) == Some(None::<(Seq<char>, nat)>),
            Some(Some(x)) => series_match_outcome(title@, k as nat, match_view(m)) == Some(Some((x.0@, x.1 as nat))),
        },
{
    match m {
        None => None,
        Some(m) => {
            let part = if k % 2 == 0 {
                roman_to_int(m.1.as_str())
            } else {
                parse_usize(m.1.as_str())
            };
            match part {
                None => Some(None),
                Some(n) => {
                    let tv = chars_of(title);
                    let wv = chars_of(m.0.as_str());
                    let removed = remove_all_chars(&tv, &wv);
                    let base_chars = trim_chars(&removed);
                    if n > 0 && base_chars.len() > 0 {
                        let base = string_of(&base_chars);
                        let normalized = normalize_exact(base.as_str());
                        Some(Some((normalized, n)))
                    } else {
                        None
                    }
                },
            }
        },
    }
}

/// Extracts the series base title (normalised) and the part number from a
/// title such as `"Methods - Part II"` or `"Methods Part 2 of 3"`.
pub fn extract_series_info(title: &str) -> (r: Option<(String, usize)>)
    ensures
        match r {
            Some(x) => series_info(title@) == Some((x.0@, x.1 as nat)),
            None => series_info(title@) is None,
        },
{
    let mut k: usize = 0;
    while k < 8
        invariant
            k <= 8,
            series_info(title@) == series_info_from(title@, k as nat),
        decreases 8 - k,
    {
        let pattern = series_pattern_exec(k);
        let m = regex_first_capture(pattern, title);
        assert(match_view(m) == regex_first_match(series_pattern(k as int), title@));
        match series_from_match(title, k, m) {
            None => {},
            Some(found) => {
                return found;
            },
        }
        k = k + 1;
    }
    None
}

/// The chronological position (0-7) of a time period named like
/// `"TUE First Period"`; 999 when the name is not recognised.
pub open spec fn period_order(period: Seq<char>) -> nat {
    if has_substring(period, "TUE First"@) {
        0
    } else if has_substring(period, "TUE Second"@) {
        1
    } else if has_substring(period, "WED First"@) {
        2
    } else if has_substring(period, "WED Second"@) {
        3
    } else if has_substring(period, "THU First"@) {
        4
    } else if has_substring(period, "THU Second"@) {
        5
    } else if has_substring(period, "FRI First"@) {
        6
    } else if has_substring(period, "FRI Second"@) {
        7
    } else {
        999
    }
}

/// The chronological order of a time period (0-7), or 999 if unknown.
pub fn get_period_order(period: &str) -> (r: usize)
    ensures
        r as nat == period_order(period@),
{
    if contains_text(period, "TUE First") {
        return 0;
    }
    if contains_text(period, "TUE Second") {
        return 1;
    }
    if contains_text(period, "WED First") {
        return 2;
    }
    if contains_text(period, "WED Second") {
        return 3;
    }
    if contains_text(period, "THU First") {
        return 4;
    }
    if contains_text(period, "THU Second") {
        return 5;
    }
    if contains_text(period, "FRI First") {
        return 6;
    }
    if contains_text(period, "FRI Second") {
        return 7;
    }
    999
}

// ===========================================================================
// Series conflicts
// ===========================================================================

/// Both titles name parts of the same series.
pub open spec fn same_series(title1: Seq<char>, title2: Seq<char>) -> bool {
    match (series_info(title1), series_info(title2)) {
        (Some(a), Some(b)) => a.0 == b.0,
        _ => false,
    }
}

/// Whether two sessions are parts of the same series.
pub fn is_series_sibling(title1: &str, title2: &str) -> (r: bool)
    ensures
        r == same_series(title1@, title2@),
{
    let info1 = extract_series_info(title1);
    let info2 = extract_series_info(title2);
    match (info1, info2) {
        (Some(a), Some(b)) => a.0 == b.0,
        _ => false,
    }
}

/// Parts of one series held in different rooms.
pub open spec fn series_room_clash(
    title1: Seq<char>,
    room1: Seq<char>,
    title2: Seq<char>,
    room2: Seq<char>,
) -> bool {
    same_series(title1, title2) && room1 != room2
}

/// Whether two parts of the same series are in different rooms.
pub fn has_series_room_conflict(title1: &str, room1: &str, title2: &str, room2: &str) -> (r: bool)
    ensures
        r == series_room_clash(title1@, room1@, title2@, room2@),
{
    if !is_series_sibling(title1, title2) {
        return false;
    }
    let r1 = chars_of(room1);
    let r2 = chars_of(room2);
    !seq_eq(&r1, &r2)
}

/// Whether two character vectors are equal.
pub fn seq_eq(a: &Vec<char>, b: &Vec<char>) -> (r: bool)
    ensures
        r == (a@ == b@),
{
    if a.len() != b.len() {
        return false;
    }
    let mut i: usize = 0;
    while i < a.len()
        invariant
            i <= a.len(),
            a.len() == b.len(),
            forall|k: int| 0 <= k < i ==> a@[k] == b@[k],
        decreases a.len() - i,
    {
        if a[i] != b[i] {
            return false;
        }
        i = i + 1;
    }
    assert(a@ =~= b@);
    true
}

/// The distance between two part numbers as the parts are compared:
/// each read as a 32-bit signed integer.
pub open spec fn part_distance(p1: nat, p2: nat) -> int {
    let d = (p1 as i32) as int - (p2 as i32) as int;
    if d < 0 {
        -d
    } else {
        d
    }
}

/// Consecutive parts (part numbers one apart) of the same series that are
/// held in the same period or in periods that are not adjacent.
pub open spec fn series_back_to_back_clash(
    title1: Seq<char>,
    period1: Seq<char>,
    title2: Seq<char>,
    period2: Seq<char>,
) -> bool {
    match (series_info(title1), series_info(title2)) {
        (Some(a), Some(b)) => {
            let o1 = period_order(period1) as int;
            let o2 = period_order(period2) as int;
            &&& a.0 == b.0
            &&& part_distance(a.1, b.1) == 1
            &&& (o1 == o2 || (o1 - o2 != 1 && o2 - o1 != 1))
        },
        _ => false,
    }
}

/// Whether consecutive parts of a series (such as Part I and Part II) are
/// scheduled in parallel or in periods that are not adjacent.
/// Parts that are not consecutive (Part I and Part III) never conflict here.
pub fn has_series_back_to_back_conflict(title1: &str, period1: &str, title2: &str, period2: &str) -> (r:
    bool)
    ensures
        r == series_back_to_back_clash(title1@, period1@, title2@, period2@),
{
    let info1 = extract_series_info(title1);
    let info2 = extract_series_info(title2);
    match (info1, info2) {
        (Some(a), Some(b)) => {
            if a.0 != b.0 {
                return false;
            }
            let part_diff = (a.1 as i32) as i64 - (b.1 as i32) as i64;
            if part_diff != 1 && part_diff != -1 {
                return false;
            }
            let order1 = get_period_order(period1);
            let order2 = get_period_order(period2);
            if order1 == order2 {
                return true;
            }
            let period_diff = order1 as i64 - order2 as i64;
            period_diff != 1 && period_diff != -1
        },
        _ => false,
    }
}

/// A later part of a series held in an earlier period than an earlier part.
pub open spec fn series_order_violation(
    title1: Seq<char>,
    period1: Seq<char>,
    title2: Seq<char>,
    period2: Seq<char>,
) -> bool {
    match (series_info(title1), series_info(title2)) {
        (Some(a), Some(b)) => {
            let o1 = period_order(period1);
            let o2 = period_order(period2);
            &&& a.0 == b.0
            &&& ((a.1 < b.1 && o1 > o2) || (b.1 < a.1 && o2 > o1))
        },
        _ => false,
    }
}

/// Whether two parts of the same series appear in the wrong chronological
/// order (Part II before Part I, for example). Such a schedule must never be
/// produced.
pub fn has_series_chronological_violation(
    title1: &str,
    period1: &str,
    title2: &str,
    period2: &str,
) -> (r: bool)
    ensures
        r == series_order_violation(title1@, period1@, title2@, period2@),
{
    let info1 = extract_series_info(title1);
    let info2 = extract_series_info(title2);
    match (info1, info2) {
        (Some(a), Some(b)) => {
            if a.0 != b.0 {
                return false;
            }
            let order1 = get_period_order(period1);
            let order2 = get_period_order(period2);
            if a.1 < b.1 && order1 > order2 {
                return true;
            }
            if b.1 < a.1 && order2 > order1 {
                return true;
            }
            false
        },
        _ => false,
    }
}

} // verus!
