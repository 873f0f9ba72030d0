//! Before scheduling: whether zero conflicts of each kind are possible at
//! all with the given numbers of time slots and rooms.
use vstd::prelude::*;
use crate::analysis::{
    concat, count_in, distinct, distinct_strings, max_count_upto, most_constrained, most_frequent,
    normalized_names, normalized_names_exec,
};
use crate::conflict_detection::{normalize_exact, normalize_spec};
use crate::model::Minisymposium;
use crate::preprocess::views;
use crate::text::{contains_text, has_substring, nat_digits, usize_text};

verus! {

/// Whether zero conflicts of each kind are possible, and why.
#[derive(Clone, Debug)]
pub struct FeasibilityReport {
    pub speaker_organizer_feasible: bool,
    pub speaker_organizer_reason: String,
    pub personal_classification_feasible: bool,
    pub personal_classification_reason: String,
    pub series_room_feasible: bool,
    pub series_room_reason: String,
    pub series_back_to_back_feasible: bool,
    pub series_back_to_back_reason: String,
}

/// The non-empty normalised names of the people of the first `end`
/// minisymposia: speakers, then organizers, one minisymposium after the
/// other, repeats kept.
pub open spec fn people_names(ms: Seq<Minisymposium>, end: nat) -> Seq<Seq<char>>
    decreases end,
{
    if end == 0 {
        Seq::empty()
    } else {
        let p = ms[end - 1].speakers@ + ms[end - 1].organizers@;
        people_names(ms, (end - 1) as nat) + normalized_names(p, p.len())
    }
}

/// The notes keywords of the first `end` minisymposia that have one
/// (non-empty after normalising, without the header word `notes`).
pub open spec fn notes_keywords(ms: Seq<Minisymposium>, end: nat) -> Seq<Seq<char>>
    decreases end,
{
    if end == 0 {
        Seq::empty()
    } else {
        let prev = notes_keywords(ms, (end - 1) as nat);
        let n = normalize_spec(ms[end - 1].notes@);
        if n.len() > 0 && !has_substring(n, "notes"@) {
            prev.push(n)
        } else {
            prev
        }
    }
}

/// The series keys of the first `end` minisymposia that have one.
pub open spec fn series_keys(ms: Seq<Minisymposium>, end: nat) -> Seq<Seq<char>>
    decreases end,
{
    if end == 0 {
        Seq::empty()
    } else {
        let prev = series_keys(ms, (end - 1) as nat);
        match ms[end - 1].series_key {
            Some(k) => prev.push(k@),
            None => prev,
        }
    }
}

/// The speaker/organizer outcome: feasible exactly when no person is listed
/// in more minisymposia than there are time slots; the reason names the
/// largest count, and on failure one person who reaches it.
pub open spec fn speaker_organizer_outcome(ms: Seq<Minisymposium>, slots: nat, feasible: bool, reason: Seq<char>) -> bool {
    let names = people_names(ms, ms.len());
    let top = max_count_upto(names, names.len());
    &&& feasible == (top <= slots)
    &&& feasible ==> reason == "✓ FEASIBLE: Max sessions per person = "@ + nat_digits(top) + " (fits in "@
        + nat_digits(slots) + " time slots)"@
    &&& !feasible ==> exists|p: Seq<char>| #[trigger] most_constrained(names, p) && reason == "✗ IMPOSSIBLE: Person '"@
        + p + "' appears in "@ + nat_digits(top) + " sessions but only "@ + nat_digits(slots)
        + " time slots available"@
}

/// The personal-classification outcome: feasible exactly when no notes
/// keyword is on more minisymposia than `slots * rooms`.
pub open spec fn personal_classification_outcome(
    ms: Seq<Minisymposium>,
    slots: nat,
    rooms: nat,
    feasible: bool,
    reason: Seq<char>,
) -> bool {
    let k = notes_keywords(ms, ms.len());
    let top = max_count_upto(k, k.len());
    let cap = slots * rooms;
    &&& feasible == (top <= cap)
    &&& top == 0 ==> reason == "✓ FEASIBLE: No sessions with matching notes keywords"@
    &&& top != 0 ==> exists|kw: Seq<char>| #[trigger] most_constrained(k, kw) && reason == if top <= cap {
        "✓ FEASIBLE: Max "@ + nat_digits(top) + " sessions with same notes '"@ + kw + "' (capacity: "@
            + nat_digits(slots) + " slots × "@ + nat_digits(rooms) + " rooms = "@ + nat_digits(cap) + ")"@
    } else {
        "✗ IMPOSSIBLE: "@ + nat_digits(top) + " sessions with notes '"@ + kw + "' but capacity is only "@
            + nat_digits(cap) + " ("@ + nat_digits(slots) + "×"@ + nat_digits(rooms) + ")"@
    }
}

/// The series-room outcome: feasible exactly when there are no more series
/// than rooms.
pub open spec fn series_room_outcome(ms: Seq<Minisymposium>, rooms: nat, feasible: bool, reason: Seq<char>) -> bool {
    let total = distinct(series_keys(ms, ms.len())).len();
    &&& feasible == (total <= rooms)
    &&& reason == if total == 0 {
        "✓ FEASIBLE: No multi-part series detected"@
    } else if total <= rooms {
        "✓ FEASIBLE: "@ + nat_digits(total) + " series detected, "@ + nat_digits(rooms) + " rooms available"@
    } else {
        "✗ MIGHT BE DIFFICULT: "@ + nat_digits(total) + " series but only "@ + nat_digits(rooms)
            + " rooms (series may need to share rooms)"@
    }
}

/// The back-to-back outcome: feasible exactly when no series has more parts
/// than there are time slots.
pub open spec fn series_back_to_back_outcome(ms: Seq<Minisymposium>, slots: nat, feasible: bool, reason: Seq<char>) -> bool {
    let k = series_keys(ms, ms.len());
    let top = max_count_upto(k, k.len());
    &&& feasible == (top <= slots)
    &&& top == 0 ==> reason == "✓ FEASIBLE: No multi-part series detected"@
    &&& (top != 0 && top <= slots) ==> reason == "✓ FEASIBLE: Longest series has "@ + nat_digits(top) + " parts, "@
        + nat_digits(slots) + " time slots available"@
    &&& top > slots ==> exists|s: Seq<char>| #[trigger] most_constrained(k, s) && reason == "✗ IMPOSSIBLE: Series '"@
        + s + "' has "@ + nat_digits(top) + " parts but only "@ + nat_digits(slots) + " time slots available"@
}

fn people_names_exec(all_sessions: &[Minisymposium]) -> (r: Vec<String>)
    ensures
        views(r@) == people_names(all_sessions@, all_sessions@.len()),
{
    let mut r: Vec<String> = Vec::new();
    let mut i: usize = 0;
    while i < all_sessions.len()
        invariant
            i <= all_sessions@.len(),
            views(r@) == people_names(all_sessions@, i as nat),
        decreases all_sessions.len() - i,
    {
        let m = &all_sessions[i];
        let mut people: Vec<String> = Vec::new();
        let mut j: usize = 0;
        while j < m.speakers.len()
            invariant
                j <= m.speakers@.len(),
                people@ == m.speakers@.take(j as int),
            decreases m.speakers.len() - j,
        {
            people.push(m.speakers[j].clone());
            j = j + 1;
            assert(people@ =~= m.speakers@.take(j as int));
        }
        let mut k: usize = 0;
        while k < m.organizers.len()
            invariant
                j == m.speakers@.len(),
                k <= m.organizers@.len(),
                people@ == m.speakers@.take(j as int) + m.organizers@.take(k as int),
            decreases m.organizers.len() - k,
        {
            people.push(m.organizers[k].clone());
            k = k + 1;
            assert(people@ =~= m.speakers@.take(j as int) + m.organizers@.take(k as int));
        }
        assert(m.speakers@.take(j as int) =~= m.speakers@);
        assert(m.organizers@.take(k as int) =~= m.organizers@);
        let names = normalized_names_exec(&people);
        let ghost before = views(r@);
        let mut q: usize = 0;
        while q < names.len()
            invariant
                q <= names@.len(),
                views(r@) == before + views(names@).take(q as int),
            decreases names.len() - q,
        {
            let ghost prev = r@;
            r.push(names[q].clone());
            assert(views(r@) =~= views(prev).push(names@[q as int]@));
            q = q + 1;
            assert(views(names@).take(q as int) =~= views(names@).take(q - 1).push(names@[q - 1]@));
        }
        assert(views(names@).take(names@.len() as int) =~= views(names@));
        i = i + 1;
    }
    r
}

fn notes_keywords_exec(all_sessions: &[Minisymposium]) -> (r: Vec<String>)
    ensures
        views(r@) == notes_keywords(all_sessions@, all_sessions@.len()),
{
    let mut r: Vec<String> = Vec::new();
    let mut i: usize = 0;
    while i < all_sessions.len()
        invariant
            i <= all_sessions@.len(),
            views(r@) == notes_keywords(all_sessions@, i as nat),
        decreases all_sessions.len() - i,
    {
        let n = normalize_exact(all_sessions[i].notes.as_str());
        if !n.as_str().is_empty() && !contains_text(n.as_str(), "notes") {
            let ghost prev = r@;
            r.push(n);
            assert(views(r@) =~= views(prev).push(normalize_spec(all_sessions@[i as int].notes@)));
        }
        i = i + 1;
    }
    r
}

fn series_keys_exec(all_sessions: &[Minisymposium]) -> (r: Vec<String>)
    ensures
        views(r@) == series_keys(all_sessions@, all_sessions@.len()),
{
    let mut r: Vec<String> = Vec::new();
    let mut i: usize = 0;
    while i < all_sessions.len()
        invariant
            i <= all_sessions@.len(),
            views(r@) == series_keys(all_sessions@, i as nat),
        decreases all_sessions.len() - i,
    {
        match &all_sessions[i].series_key {
            Some(k) => {
                let ghost prev = r@;
                r.push(k.clone());
                assert(views(r@) =~= views(prev).push(k@));
            },
            None => {},
        }
        i = i + 1;
    }
    r
}

/// Zero speaker/organizer conflicts need every person in at most
/// `num_time_slots` minisymposia (people counted by normalised name, once
/// per listing).
pub fn check_speaker_organizer_feasibility(all_sessions: &[Minisymposium], num_time_slots: usize, num_rooms: usize) -> (r: (bool, String))
    ensures
        speaker_organizer_outcome(all_sessions@, num_time_slots as nat, r.0, r.1@),
{
    let names = people_names_exec(all_sessions);
    let (top, person) = most_frequent(&names);
    let feasible = top <= num_time_slots;
    let reason = if feasible {
        let a = concat("✓ FEASIBLE: Max sessions per person = ", usize_text(top).as_str());
        let b = concat(a.as_str(), " (fits in ");
        let c = concat(b.as_str(), usize_text(num_time_slots).as_str());
        concat(c.as_str(), " time slots)")
    } else {
        let a = concat("✗ IMPOSSIBLE: Person '", person.as_str());
        let b = concat(a.as_str(), "' appears in ");
        let c = concat(b.as_str(), usize_text(top).as_str());
        let d = concat(c.as_str(), " sessions but only ");
        let e = concat(d.as_str(), usize_text(num_time_slots).as_str());
        concat(e.as_str(), " time slots available")
    };
    (feasible, reason)
}

/// Zero personal-classification conflicts need every notes keyword on at
/// most `num_time_slots * num_rooms` minisymposia.
pub fn check_personal_classification_feasibility(all_sessions: &[Minisymposium], num_time_slots: usize, num_rooms: usize) -> (r: (bool, String))
    requires
        num_time_slots * num_rooms <= usize::MAX,
    ensures
        personal_classification_outcome(all_sessions@, num_time_slots as nat, num_rooms as nat, r.0, r.1@),
{
    let keywords = notes_keywords_exec(all_sessions);
    let (top, key) = most_frequent(&keywords);
    let cap = num_time_slots * num_rooms;
    let feasible = top <= cap;
    let reason = if top == 0 {
        "✓ FEASIBLE: No sessions with matching notes keywords".to_owned()
    } else if feasible {
        let a = concat("✓ FEASIBLE: Max ", usize_text(top).as_str());
        let b = concat(a.as_str(), " sessions with same notes '");
        let c = concat(b.as_str(), key.as_str());
        let d = concat(c.as_str(), "' (capacity: ");
        let e = concat(d.as_str(), usize_text(num_time_slots).as_str());
        let f = concat(e.as_str(), " slots × ");
        let g = concat(f.as_str(), usize_text(num_rooms).as_str());
        let h = concat(g.as_str(), " rooms = ");
        let i = concat(h.as_str(), usize_text(cap).as_str());
        concat(i.as_str(), ")")
    } else {
        let a = concat("✗ IMPOSSIBLE: ", usize_text(top).as_str());
        let b = concat(a.as_str(), " sessions with notes '");
        let c = concat(b.as_str(), key.as_str());
        let d = concat(c.as_str(), "' but capacity is only ");
        let e = concat(d.as_str(), usize_text(cap).as_str());
        let f = concat(e.as_str(), " (");
        let g = concat(f.as_str(), usize_text(num_time_slots).as_str());
        let h = concat(g.as_str(), "×");
        let i = concat(h.as_str(), usize_text(num_rooms).as_str());
        concat(i.as_str(), ")")
    };
    (feasible, reason)
}

/// Keeping every series in one room of its own needs as many rooms as
/// series.
pub fn check_series_room_feasibility(all_sessions: &[Minisymposium], num_rooms: usize) -> (r: (bool, String))
    ensures
        series_room_outcome(all_sessions@, num_rooms as nat, r.0, r.1@),
{
    let keys = series_keys_exec(all_sessions);
    let d = distinct_strings(&keys);
    let total = d.len();
    let feasible = total <= num_rooms;
    let reason = if total == 0 {
        "✓ FEASIBLE: No multi-part series detected".to_owned()
    } else if feasible {
        let a = concat("✓ FEASIBLE: ", usize_text(total).as_str());
        let b = concat(a.as_str(), " series detected, ");
        let c = concat(b.as_str(), usize_text(num_rooms).as_str());
        concat(c.as_str(), " rooms available")
    } else {
        let a = concat("✗ MIGHT BE DIFFICULT: ", usize_text(total).as_str());
        let b = concat(a.as_str(), " series but only ");
        let c = concat(b.as_str(), usize_text(num_rooms).as_str());
        concat(c.as_str(), " rooms (series may need to share rooms)")
    };
    (feasible, reason)
}

/// Holding the parts of every series in consecutive slots needs every
/// series to have at most `num_time_slots` parts.
pub fn check_series_back_to_back_feasibility(all_sessions: &[Minisymposium], num_time_slots: usize) -> (r: (bool, String))
    ensures
        series_back_to_back_outcome(all_sessions@, num_time_slots as nat, r.0, r.1@),
{
    let keys = series_keys_exec(all_sessions);
    let (top, longest) = most_frequent(&keys);
    let feasible = top <= num_time_slots;
    let reason = if top == 0 {
        "✓ FEASIBLE: No multi-part series detected".to_owned()
    } else if feasible {
        let a = concat("✓ FEASIBLE: Longest series has ", usize_text(top).as_str());
        let b = concat(a.as_str(), " parts, ");
        let c = concat(b.as_str(), usize_text(num_time_slots).as_str());
        concat(c.as_str(), " time slots available")
    } else {
        let a = concat("✗ IMPOSSIBLE: Series '", longest.as_str());
        let b = concat(a.as_str(), "' has ");
        let c = concat(b.as_str(), usize_text(top).as_str());
        let d = concat(c.as_str(), " parts but only ");
        let e = concat(d.as_str(), usize_text(num_time_slots).as_str());
        concat(e.as_str(), " time slots available")
    };
    (feasible, reason)
}

/// The four feasibility checks.
pub fn analyze_feasibility(all_sessions: &[Minisymposium], num_time_slots: usize, num_rooms: usize) -> (r: FeasibilityReport)
    requires
        num_time_slots * num_rooms <= usize::MAX,
    ensures
        speaker_organizer_outcome(
            all_sessions@,
            num_time_slots as nat,
            r.speaker_organizer_feasible,
            r.speaker_organizer_reason@,
        ),
        personal_classification_outcome(
            all_sessions@,
            num_time_slots as nat,
            num_rooms as nat,
            r.personal_classification_feasible,
            r.personal_classification_reason@,
        ),
        series_room_outcome(all_sessions@, num_rooms as nat, r.series_room_feasible, r.series_room_reason@),
        series_back_to_back_outcome(
            all_sessions@,
            num_time_slots as nat,
            r.series_back_to_back_feasible,
            r.series_back_to_back_reason@,
        ),
{
    let (speaker_organizer_feasible, speaker_organizer_reason) = check_speaker_organizer_feasibility(
        all_sessions,
        num_time_slots,
        num_rooms,
    );
    let (personal_classification_feasible, personal_classification_reason) = check_personal_classification_feasibility(
        all_sessions,
        num_time_slots,
        num_rooms,
    );
    let (series_room_feasible, series_room_reason) = check_series_room_feasibility(all_sessions, num_rooms);
    let (series_back_to_back_feasible, series_back_to_back_reason) = check_series_back_to_back_feasibility(
        all_sessions,
        num_time_slots,
    );
    FeasibilityReport {
        speaker_organizer_feasible,
        speaker_organizer_reason,
        personal_classification_feasible,
        personal_classification_reason,
        series_room_feasible,
        series_room_reason,
        series_back_to_back_feasible,
        series_back_to_back_reason,
    }
}

} // verus!
