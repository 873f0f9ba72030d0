//! Analysis of a finished schedule: the sessions as read from a schedule
//! sheet, the conflicts between sessions of the same period, and series
//! placement.
use vstd::prelude::*;
use vstd::string::StringSliceAdditionalSpecFns;
use crate::conflict_detection::{
    extract_series_info, get_period_order, has_series_back_to_back_conflict, has_series_room_conflict,
    period_order, series_back_to_back_clash, series_info, series_room_clash, codes_overlap, has_classification_conflict, has_personal_classification_conflict,
    has_speaker_organizer_conflict, normalize_exact, normalize_spec, notes_clash, share_person,
};
use crate::preprocess::{append_chars, join_spec, join_strings, views};
use crate::text::{
    nat_digits, usize_text, alphanumerics, before_first, before_first_chars, chars_of, contains_text, has_substring, keep_alphanumerics,
    lowercase_of, replace_all, replace_all_chars, split_list, split_list_chars, string_of, to_lowercase, trim_chars,
    trim_spec,
};

verus! {

// ===========================================================================
// Sessions and reported conflicts
// ===========================================================================

/// A scheduled session as read from a schedule sheet.
#[derive(Clone, Debug)]
pub struct SessionInfo {
    pub id: String,
    pub title: String,
    pub session_period: String,
    pub room: String,
    pub classification: Vec<String>,
    pub organizers: Vec<String>,
    pub speakers: Vec<String>,
    pub notes: String,
}

/// The kinds of conflict an analysis reports.
#[derive(Clone, Copy, Debug, PartialEq, Eq, Structural)]
pub enum ConflictType {
    Classification,
    Personal,
    PersonalClassification,
    SeriesRoom,
    SeriesBackToBack,
}

/// A session as named in a reported conflict.
#[derive(Clone, Debug)]
pub struct ConflictSessionInfo {
    pub id: String,
    pub title: String,
    pub room: String,
}

/// A conflict between two sessions.
#[derive(Clone, Debug)]
pub struct ConflictInfo {
    pub conflict_type: ConflictType,
    pub period: String,
    pub session1: ConflictSessionInfo,
    pub session2: ConflictSessionInfo,
    pub details: String,
}

/// `c` names session `s`.
pub open spec fn names_session(c: ConflictSessionInfo, s: SessionInfo) -> bool {
    c.id@ == s.id@ && c.title@ == s.title@ && c.room@ == s.room@
}

/// `c` reports a conflict of kind `kind` in `period` between `s1` and `s2`,
/// with the text `details`.
pub open spec fn reports(
    c: ConflictInfo,
    kind: ConflictType,
    period: Seq<char>,
    s1: SessionInfo,
    s2: SessionInfo,
    details: Seq<char>,
) -> bool {
    &&& c.conflict_type == kind
    &&& c.period@ == period
    &&& names_session(c.session1, s1)
    &&& names_session(c.session2, s2)
    &&& c.details@ == details
}

/// The session as named in a conflict.
fn session_ref(s: &SessionInfo) -> (r: ConflictSessionInfo)
    ensures
        names_session(r, *s),
{
    ConflictSessionInfo { id: s.id.clone(), title: s.title.clone(), room: s.room.clone() }
}

/// The concatenation of two strings.
pub(crate) fn concat(a: &str, b: &str) -> (r: String)
    ensures
        r@ == a@ + b@,
{
    let mut v = chars_of(a);
    append_chars(&mut v, &chars_of(b));
    string_of(&v)
}

// ===========================================================================
// Periods
// ===========================================================================

/// Session `i` is the first with its period.
pub open spec fn first_in_period(sessions: Seq<SessionInfo>, i: int) -> bool {
    forall|j: int| 0 <= j < i ==> #[trigger] sessions[j].session_period@ != sessions[i].session_period@
}

/// The indices `i < end` of the sessions in period `p`, in order.
pub open spec fn period_members(sessions: Seq<SessionInfo>, p: Seq<char>, end: nat) -> Seq<usize>
    decreases end,
{
    if end == 0 {
        Seq::empty()
    } else {
        let prev = period_members(sessions, p, (end - 1) as nat);
        if sessions[end - 1].session_period@ == p {
            prev.push((end - 1) as usize)
        } else {
            prev
        }
    }
}

/// The periods whose first session is among the first `end`, in order of
/// their first session, each with the indices of all its sessions.
pub open spec fn period_groups_upto(sessions: Seq<SessionInfo>, end: nat) -> Seq<(Seq<char>, Seq<usize>)>
    decreases end,
{
    if end == 0 {
        Seq::empty()
    } else {
        let prev = period_groups_upto(sessions, (end - 1) as nat);
        if first_in_period(sessions, end - 1) {
            let p = sessions[end - 1].session_period@;
            prev.push((p, period_members(sessions, p, sessions.len())))
        } else {
            prev
        }
    }
}

/// The sessions grouped by period, periods in order of their first session.
pub open spec fn period_groups(sessions: Seq<SessionInfo>) -> Seq<(Seq<char>, Seq<usize>)> {
    period_groups_upto(sessions, sessions.len())
}

/// `r` holds the groups `g`: each period's text and the indices of its
/// sessions.
pub open spec fn holds_groups(r: Seq<(String, Vec<usize>)>, g: Seq<(Seq<char>, Seq<usize>)>) -> bool {
    &&& r.len() == g.len()
    &&& forall|k: int| 0 <= k < r.len() ==> (#[trigger] r[k]).0@ == g[k].0 && r[k].1@ == g[k].1
}

proof fn lemma_period_members_below(sessions: Seq<SessionInfo>, p: Seq<char>, end: nat)
    ensures
        forall|k: int| 0 <= k < period_members(sessions, p, end).len() ==> #[trigger] period_members(sessions, p, end)[k] < end,
    decreases end,
{
    if end > 0 {
        lemma_period_members_below(sessions, p, (end - 1) as nat);
        let prev = period_members(sessions, p, (end - 1) as nat);
        let cur = period_members(sessions, p, end);
        assert forall|k: int| 0 <= k < cur.len() implies #[trigger] cur[k] < end by {
            if k < prev.len() {
                assert(cur[k] == prev[k]);
            }
        }
    }
}

/// Every index in the groups names a session.
pub proof fn lemma_period_groups_valid(sessions: Seq<SessionInfo>, end: nat)
    requires
        end <= sessions.len(),
    ensures
        forall|g: int, k: int|
            0 <= g < period_groups_upto(sessions, end).len() && 0 <= k < period_groups_upto(sessions, end)[g].1.len()
                ==> #[trigger] period_groups_upto(sessions, end)[g].1[k] < sessions.len(),
    decreases end,
{
    if end > 0 {
        lemma_period_groups_valid(sessions, (end - 1) as nat);
        let prev = period_groups_upto(sessions, (end - 1) as nat);
        let cur = period_groups_upto(sessions, end);
        let p = sessions[end - 1].session_period@;
        lemma_period_members_below(sessions, p, sessions.len());
        assert forall|g: int, k: int| 0 <= g < cur.len() && 0 <= k < cur[g].1.len() implies #[trigger] cur[g].1[k]
            < sessions.len() by {
            if g < prev.len() {
                assert(cur[g] == prev[g]);
            }
        }
    }
}

/// The indices of the sessions of period `p`, in order.
fn members_of(sessions: &[SessionInfo], p: &String) -> (r: Vec<usize>)
    ensures
        r@ == period_members(sessions@, p@, sessions@.len()),
{
    let mut r: Vec<usize> = Vec::new();
    let mut i: usize = 0;
    while i < sessions.len()
        invariant
            i <= sessions@.len(),
            r@ == period_members(sessions@, p@, i as nat),
        decreases sessions.len() - i,
    {
        if sessions[i].session_period == *p {
            r.push(i);
        }
        i = i + 1;
    }
    r
}

/// The sessions grouped by period: each period (in order of its first
/// session) with the indices of its sessions.
pub fn group_sessions_by_period(sessions: &[SessionInfo]) -> (r: Vec<(String, Vec<usize>)>)
    ensures
        holds_groups(r@, period_groups(sessions@)),
{
    let mut r: Vec<(String, Vec<usize>)> = Vec::new();
    let mut i: usize = 0;
    while i < sessions.len()
        invariant
            i <= sessions@.len(),
            holds_groups(r@, period_groups_upto(sessions@, i as nat)),
        decreases sessions.len() - i,
    {
        let mut first = true;
        let mut j: usize = 0;
        while j < i
            invariant
                j <= i,
                i < sessions@.len(),
                first == forall|q: int| 0 <= q < j ==> #[trigger] sessions@[q].session_period@ != sessions@[i as int].session_period@,
            decreases i - j,
        {
            if sessions[j].session_period == sessions[i].session_period {
                first = false;
            }
            j = j + 1;
        }
        if first {
            let p = sessions[i].session_period.clone();
            let m = members_of(sessions, &p);
            let ghost prev = r@;
            r.push((p, m));
            proof {
                let g = period_groups_upto(sessions@, (i + 1) as nat);
                assert forall|k: int| 0 <= k < r@.len() implies (#[trigger] r@[k]).0@ == g[k].0 && r@[k].1@ == g[k].1 by {
                    if k < prev.len() {
                        assert(r@[k] == prev[k]);
                    }
                }
            }
        }
        i = i + 1;
    }
    r
}

/// The sessions grouped by period (the same grouping as
/// `group_sessions_by_period`).
pub fn group_by_period(sessions: &[SessionInfo]) -> (r: Vec<(String, Vec<usize>)>)
    ensures
        holds_groups(r@, period_groups(sessions@)),
{
    group_sessions_by_period(sessions)
}

// ===========================================================================
// Pairwise conflicts within a period
// ===========================================================================

/// The codes of `c1` (the first `end`, in order, repeats kept) that `c2`
/// also has.
pub open spec fn shared_codes(c1: Seq<String>, c2: Seq<String>, end: nat) -> Seq<Seq<char>>
    decreases end,
{
    if end == 0 {
        Seq::empty()
    } else {
        let prev = shared_codes(c1, c2, (end - 1) as nat);
        if exists|j: int| 0 <= j < c2.len() && #[trigger] c2[j]@ == c1[end - 1]@ {
            prev.push(c1[end - 1]@)
        } else {
            prev
        }
    }
}

/// The non-empty normalised names among the first `end` of `people`, in
/// order.
pub open spec fn normalized_names(people: Seq<String>, end: nat) -> Seq<Seq<char>>
    decreases end,
{
    if end == 0 {
        Seq::empty()
    } else {
        let prev = normalized_names(people, (end - 1) as nat);
        let n = normalize_spec(people[end - 1]@);
        if n.len() > 0 {
            prev.push(n)
        } else {
            prev
        }
    }
}

/// The names reported as shared: going along `people` and the list `n1` of
/// its non-empty normalised names side by side (the first `end` of both),
/// the person of each position whose entry in `n1` is among `n2`.
pub open spec fn overlap_people(people: Seq<String>, n1: Seq<Seq<char>>, n2: Seq<Seq<char>>, end: nat) -> Seq<Seq<char>>
    decreases end,
{
    if end == 0 {
        Seq::empty()
    } else {
        let prev = overlap_people(people, n1, n2, (end - 1) as nat);
        if n2.contains(n1[end - 1]) {
            prev.push(people[end - 1]@)
        } else {
            prev
        }
    }
}

/// The organizers, then the speakers, of a session.
pub open spec fn people_of(s: SessionInfo) -> Seq<String> {
    s.organizers@ + s.speakers@
}

/// The people of `s1` reported as also in `s2`.
pub open spec fn shared_people(s1: SessionInfo, s2: SessionInfo) -> Seq<Seq<char>> {
    let p1 = people_of(s1);
    let n1 = normalized_names(p1, p1.len());
    let n2 = normalized_names(people_of(s2), people_of(s2).len());
    overlap_people(p1, n1, n2, n1.len())
}

/// Sessions `s1` and `s2` conflict by `kind` (one of the three pairwise
/// kinds).
pub open spec fn pair_hit(kind: ConflictType, s1: SessionInfo, s2: SessionInfo) -> bool {
    match kind {
        ConflictType::Classification => codes_overlap(s1.classification@, s2.classification@),
        ConflictType::Personal => share_person(s1.speakers@ + s1.organizers@, s2.speakers@ + s2.organizers@),
        ConflictType::PersonalClassification => notes_clash(s1.notes@, s2.notes@),
        ConflictType::SeriesRoom => series_room_clash(s1.title@, s1.room@, s2.title@, s2.room@),
        ConflictType::SeriesBackToBack => series_back_to_back_clash(
            s1.title@,
            s1.session_period@,
            s2.title@,
            s2.session_period@,
        ),
    }
}

/// The period reported with a conflict found in the group labelled
/// `label`: the group's period for the pairwise kinds, the period of the
/// later session for the series kinds.
pub open spec fn hit_period(kind: ConflictType, label: Seq<char>, s2: SessionInfo) -> Seq<char> {
    match kind {
        ConflictType::SeriesRoom => s2.session_period@,
        ConflictType::SeriesBackToBack => s2.session_period@,
        _ => label,
    }
}

/// The text reported with a conflict found in the group labelled `label`
/// (for the series kinds, the label is the series base title).
pub open spec fn hit_details(kind: ConflictType, label: Seq<char>, s1: SessionInfo, s2: SessionInfo) -> Seq<char> {
    match kind {
        ConflictType::SeriesRoom => "Series '"@ + label + "' parts in different rooms"@,
        ConflictType::SeriesBackToBack => if period_order(s1.session_period@) == period_order(s2.session_period@) {
            "Series '"@ + label + "' parts scheduled in parallel"@
        } else {
            "Series '"@ + label + "' parts not in consecutive periods"@
        },
        _ => pair_details(kind, s1, s2),
    }
}

/// The text reported with a pairwise conflict.
pub open spec fn pair_details(kind: ConflictType, s1: SessionInfo, s2: SessionInfo) -> Seq<char> {
    match kind {
        ConflictType::Classification => "Shared classifications: "@ + join_spec(
            shared_codes(s1.classification@, s2.classification@, s1.classification@.len()),
            ", "@,
        ),
        ConflictType::Personal => "Conflicting people: "@ + join_spec(shared_people(s1, s2), ", "@),
        _ => "Matching notes keywords: '"@ + s1.notes@ + "' vs '"@ + s2.notes@ + "'"@,
    }
}

/// The conflicts of member `i` of `m` with the members `i < j < end`.
pub open spec fn row_hits(
    kind: ConflictType,
    sessions: Seq<SessionInfo>,
    period: Seq<char>,
    m: Seq<usize>,
    i: int,
    end: nat,
) -> Seq<(Seq<char>, usize, usize)>
    decreases end,
{
    if end == 0 || end <= i + 1 {
        Seq::empty()
    } else {
        let prev = row_hits(kind, sessions, period, m, i, (end - 1) as nat);
        if pair_hit(kind, sessions[m[i] as int], sessions[m[end - 1] as int]) {
            prev.push((period, m[i], m[end - 1]))
        } else {
            prev
        }
    }
}

/// The conflicts between members of `m` whose first member is among the
/// first `end`: pairs in order of the first, then of the second member.
pub open spec fn group_hits(
    kind: ConflictType,
    sessions: Seq<SessionInfo>,
    period: Seq<char>,
    m: Seq<usize>,
    end: nat,
) -> Seq<(Seq<char>, usize, usize)>
    decreases end,
{
    if end == 0 {
        Seq::empty()
    } else {
        group_hits(kind, sessions, period, m, (end - 1) as nat) + row_hits(kind, sessions, period, m, end - 1, m.len())
    }
}

/// The conflicts in the first `end` period groups, group by group.
pub open spec fn all_hits(
    kind: ConflictType,
    sessions: Seq<SessionInfo>,
    groups: Seq<(Seq<char>, Seq<usize>)>,
    end: nat,
) -> Seq<(Seq<char>, usize, usize)>
    decreases end,
{
    if end == 0 {
        Seq::empty()
    } else {
        all_hits(kind, sessions, groups, (end - 1) as nat) + group_hits(
            kind,
            sessions,
            groups[end - 1].0,
            groups[end - 1].1,
            groups[end - 1].1.len(),
        )
    }
}

/// The pairwise conflicts of `kind` in the schedule: for each period (in
/// order of its first session), each pair of its sessions in order.
pub open spec fn pair_conflicts(kind: ConflictType, sessions: Seq<SessionInfo>) -> Seq<(Seq<char>, usize, usize)> {
    all_hits(kind, sessions, period_groups(sessions), period_groups(sessions).len())
}

/// `r` reports the conflicts `h` of kind `kind`, in order.
pub open spec fn reports_all(r: Seq<ConflictInfo>, kind: ConflictType, sessions: Seq<SessionInfo>, h: Seq<(Seq<char>, usize, usize)>) -> bool {
    &&& r.len() == h.len()
    &&& forall|k: int|
        0 <= k < r.len() ==> reports(
            #[trigger] r[k],
            kind,
            hit_period(kind, h[k].0, sessions[h[k].2 as int]),
            sessions[h[k].1 as int],
            sessions[h[k].2 as int],
            hit_details(kind, h[k].0, sessions[h[k].1 as int], sessions[h[k].2 as int]),
        )
}

/// The codes of `c1` that `c2` also has.
fn shared_codes_exec(c1: &Vec<String>, c2: &Vec<String>) -> (r: Vec<String>)
    ensures
        views(r@) == shared_codes(c1@, c2@, c1@.len()),
{
    let mut r: Vec<String> = Vec::new();
    let mut i: usize = 0;
    while i < c1.len()
        invariant
            i <= c1@.len(),
            views(r@) == shared_codes(c1@, c2@, i as nat),
        decreases c1.len() - i,
    {
        let mut found = false;
        let mut j: usize = 0;
        while j < c2.len()
            invariant
                i < c1@.len(),
                j <= c2@.len(),
                found == exists|q: int| 0 <= q < j && #[trigger] c2@[q]@ == c1@[i as int]@,
            decreases c2.len() - j,
        {
            if c2[j] == c1[i] {
                found = true;
            }
            j = j + 1;
        }
        if found {
            let ghost prev = r@;
            r.push(c1[i].clone());
            assert(views(r@) =~= views(prev).push(c1@[i as int]@));
        }
        i = i + 1;
    }
    r
}

/// The non-empty normalised names of `people`.
pub(crate) fn normalized_names_exec(people: &Vec<String>) -> (r: Vec<String>)
    ensures
        views(r@) == normalized_names(people@, people@.len()),
{
    let mut r: Vec<String> = Vec::new();
    let mut i: usize = 0;
    while i < people.len()
        invariant
            i <= people@.len(),
            views(r@) == normalized_names(people@, i as nat),
        decreases people.len() - i,
    {
        let n = normalize_exact(people[i].as_str());
        if !n.as_str().is_empty() {
            let ghost prev = r@;
            r.push(n);
            assert(views(r@) =~= views(prev).push(normalize_spec(people@[i as int]@)));
        }
        i = i + 1;
    }
    r
}

/// The organizers, then the speakers, of a session.
fn people_exec(s: &SessionInfo) -> (r: Vec<String>)
    ensures
        r@ == people_of(*s),
{
    let mut r: Vec<String> = Vec::new();
    let mut i: usize = 0;
    while i < s.organizers.len()
        invariant
            i <= s.organizers@.len(),
            r@ == s.organizers@.take(i as int),
        decreases s.organizers.len() - i,
    {
        r.push(s.organizers[i].clone());
        i = i + 1;
        assert(r@ =~= s.organizers@.take(i as int));
    }
    let mut j: usize = 0;
    while j < s.speakers.len()
        invariant
            i == s.organizers@.len(),
            j <= s.speakers@.len(),
            r@ == s.organizers@ + s.speakers@.take(j as int),
        decreases s.speakers.len() - j,
    {
        r.push(s.speakers[j].clone());
        j = j + 1;
        assert(r@ =~= s.organizers@ + s.speakers@.take(j as int));
    }
    assert(s.organizers@.take(i as int) =~= s.organizers@);
    assert(s.speakers@.take(j as int) =~= s.speakers@);
    r
}

/// The people of `s1` reported as also in `s2`.
fn shared_people_exec(s1: &SessionInfo, s2: &SessionInfo) -> (r: Vec<String>)
    ensures
        views(r@) == shared_people(*s1, *s2),
{
    let p1 = people_exec(s1);
    let p2 = people_exec(s2);
    let n1 = normalized_names_exec(&p1);
    let n2 = normalized_names_exec(&p2);
    proof {
        lemma_normalized_names_len(p1@, p1@.len());
    }
    let mut r: Vec<String> = Vec::new();
    let mut k: usize = 0;
    while k < n1.len()
        invariant
            k <= n1@.len(),
            n1@.len() <= p1@.len(),
            views(r@) == overlap_people(p1@, views(n1@), views(n2@), k as nat),
        decreases n1.len() - k,
    {
        let mut found = false;
        let mut j: usize = 0;
        while j < n2.len()
            invariant
                k < n1@.len(),
                j <= n2@.len(),
                found == exists|q: int| 0 <= q < j && #[trigger] n2@[q]@ == n1@[k as int]@,
            decreases n2.len() - j,
        {
            if n2[j] == n1[k] {
                found = true;
            }
            j = j + 1;
        }
        proof {
            if found {
                let q = choose|q: int| 0 <= q < n2@.len() && #[trigger] n2@[q]@ == n1@[k as int]@;
                assert(views(n2@)[q] == views(n1@)[k as int]);
            } else {
                if views(n2@).contains(views(n1@)[k as int]) {
                    let q = choose|q: int| 0 <= q < views(n2@).len() && views(n2@)[q] == views(n1@)[k as int];
                    assert(n2@[q]@ == n1@[k as int]@);
                }
            }
        }
        if found {
            let ghost prev = r@;
            r.push(p1[k].clone());
            assert(views(r@) =~= views(prev).push(p1@[k as int]@));
        }
        k = k + 1;
    }
    r
}

proof fn lemma_normalized_names_len(people: Seq<String>, end: nat)
    requires
        end <= people.len(),
    ensures
        normalized_names(people, end).len() <= end,
    decreases end,
{
    if end > 0 {
        lemma_normalized_names_len(people, (end - 1) as nat);
    }
}

/// Whether `s1` and `s2` conflict by `kind`.
fn pair_hit_exec(kind: ConflictType, s1: &SessionInfo, s2: &SessionInfo) -> (r: bool)
    ensures
        r == pair_hit(kind, *s1, *s2),
{
    match kind {
        ConflictType::Classification => has_classification_conflict(s1.classification.as_slice(), s2.classification.as_slice()),
        ConflictType::Personal => has_speaker_organizer_conflict(
            s1.speakers.as_slice(),
            s1.organizers.as_slice(),
            s2.speakers.as_slice(),
            s2.organizers.as_slice(),
        ),
        ConflictType::PersonalClassification => has_personal_classification_conflict(s1.notes.as_str(), s2.notes.as_str()),
        ConflictType::SeriesRoom => has_series_room_conflict(
            s1.title.as_str(),
            s1.room.as_str(),
            s2.title.as_str(),
            s2.room.as_str(),
        ),
        ConflictType::SeriesBackToBack => has_series_back_to_back_conflict(
            s1.title.as_str(),
            s1.session_period.as_str(),
            s2.title.as_str(),
            s2.session_period.as_str(),
        ),
    }
}

/// The period and text reported with a conflict of `kind` found in the
/// group labelled `label`.
fn hit_report(kind: ConflictType, label: &String, s1: &SessionInfo, s2: &SessionInfo) -> (r: (String, String))
    ensures
        r.0@ == hit_period(kind, label@, *s2),
        r.1@ == hit_details(kind, label@, *s1, *s2),
{
    match kind {
        ConflictType::SeriesRoom => {
            let a = concat("Series '", label.as_str());
            (s2.session_period.clone(), concat(a.as_str(), "' parts in different rooms"))
        },
        ConflictType::SeriesBackToBack => {
            let a = concat("Series '", label.as_str());
            let order1 = get_period_order(s1.session_period.as_str());
            let order2 = get_period_order(s2.session_period.as_str());
            if order1 == order2 {
                (s2.session_period.clone(), concat(a.as_str(), "' parts scheduled in parallel"))
            } else {
                (s2.session_period.clone(), concat(a.as_str(), "' parts not in consecutive periods"))
            }
        },
        _ => (label.clone(), pair_details_exec(kind, s1, s2)),
    }
}

/// The text reported with a conflict of `kind` between `s1` and `s2`.
fn pair_details_exec(kind: ConflictType, s1: &SessionInfo, s2: &SessionInfo) -> (r: String)
    ensures
        r@ == pair_details(kind, *s1, *s2),
{
    match kind {
        ConflictType::Classification => {
            let shared = shared_codes_exec(&s1.classification, &s2.classification);
            let joined = join_strings(&shared, ", ");
            concat("Shared classifications: ", joined.as_str())
        },
        ConflictType::Personal => {
            let shared = shared_people_exec(s1, s2);
            let joined = join_strings(&shared, ", ");
            concat("Conflicting people: ", joined.as_str())
        },
        _ => {
            let a = concat("Matching notes keywords: '", s1.notes.as_str());
            let b = concat(a.as_str(), "' vs '");
            let c = concat(b.as_str(), s2.notes.as_str());
            concat(c.as_str(), "'")
        },
    }
}

/// The conflicts of `kind` between sessions of the same group: for each
/// group in order, each pair of its sessions in order.
fn detect_in_groups(
    kind: ConflictType,
    sessions: &[SessionInfo],
    groups: &Vec<(String, Vec<usize>)>,
    Ghost(gs): Ghost<Seq<(Seq<char>, Seq<usize>)>>,
) -> (r: Vec<ConflictInfo>)
    requires
        holds_groups(groups@, gs),
        forall|g: int, k: int| 0 <= g < gs.len() && 0 <= k < gs[g].1.len() ==> #[trigger] gs[g].1[k] < sessions@.len(),
    ensures
        reports_all(r@, kind, sessions@, all_hits(kind, sessions@, gs, gs.len())),
{
    let ghost ss = sessions@;
    let mut out: Vec<ConflictInfo> = Vec::new();
    let mut g: usize = 0;
    while g < groups.len()
        invariant
            ss == sessions@,
            holds_groups(groups@, gs),
            forall|g: int, k: int| 0 <= g < gs.len() && 0 <= k < gs[g].1.len() ==> #[trigger] gs[g].1[k] < ss.len(),
            g <= gs.len(),
            reports_all(out@, kind, ss, all_hits(kind, ss, gs, g as nat)),
        decreases groups.len() - g,
    {
        let period = &groups[g].0;
        let m = &groups[g].1;
        assert(m@ == gs[g as int].1);
        let ghost before_group = all_hits(kind, ss, gs, g as nat);
        let mut i: usize = 0;
        while i < m.len()
            invariant
                ss == sessions@,
                period@ == gs[g as int].0,
                m@ == gs[g as int].1,
                forall|k: int| 0 <= k < m@.len() ==> #[trigger] m@[k] < ss.len(),
                i <= m@.len(),
                reports_all(out@, kind, ss, before_group + group_hits(kind, ss, period@, m@, i as nat)),
            decreases m.len() - i,
        {
            let ghost before_row = before_group + group_hits(kind, ss, period@, m@, i as nat);
            let mut j: usize = i + 1;
            assert(row_hits(kind, ss, period@, m@, i as int, j as nat) =~= Seq::<(Seq<char>, usize, usize)>::empty());
            while j < m.len()
                invariant
                    ss == sessions@,
                    forall|k: int| 0 <= k < m@.len() ==> #[trigger] m@[k] < ss.len(),
                    i < m@.len(),
                    i + 1 <= j <= m@.len(),
                    reports_all(out@, kind, ss, before_row + row_hits(kind, ss, period@, m@, i as int, j as nat)),
                decreases m.len() - j,
            {
                let a = m[i];
                let b = m[j];
                assert(a == m@[i as int] && b == m@[j as int]);
                let ghost h = before_row + row_hits(kind, ss, period@, m@, i as int, j as nat);
                if pair_hit_exec(kind, &sessions[a], &sessions[b]) {
                    let (reported, details) = hit_report(kind, period, &sessions[a], &sessions[b]);
                    let info = ConflictInfo {
                        conflict_type: kind,
                        period: reported,
                        session1: session_ref(&sessions[a]),
                        session2: session_ref(&sessions[b]),
                        details,
                    };
                    let ghost prev = out@;
                    out.push(info);
                    proof {
                        assert(before_row + row_hits(kind, ss, period@, m@, i as int, (j + 1) as nat) =~= h.push((period@, a, b)));
                        assert forall|k: int| 0 <= k < out@.len() implies reports(
                            #[trigger] out@[k],
                            kind,
                            hit_period(kind, h.push((period@, a, b))[k].0, ss[h.push((period@, a, b))[k].2 as int]),
                            ss[h.push((period@, a, b))[k].1 as int],
                            ss[h.push((period@, a, b))[k].2 as int],
                            hit_details(kind, h.push((period@, a, b))[k].0, ss[h.push((period@, a, b))[k].1 as int], ss[h.push((period@, a, b))[k].2 as int]),
                        ) by {
                            if k < prev.len() {
                                assert(out@[k] == prev[k]);
                            }
                        }
                    }
                } else {
                    assert(before_row + row_hits(kind, ss, period@, m@, i as int, (j + 1) as nat) =~= h);
                }
                j = j + 1;
            }
            assert(before_group + group_hits(kind, ss, period@, m@, (i + 1) as nat) =~= before_row + row_hits(
                kind,
                ss,
                period@,
                m@,
                i as int,
                m@.len(),
            ));
            i = i + 1;
        }
        assert(all_hits(kind, ss, gs, (g + 1) as nat) =~= before_group + group_hits(kind, ss, period@, m@, m@.len()));
        g = g + 1;
    }
    out
}

/// The conflicts of `kind` between sessions of the same period: for each
/// period (in order of its first session), each pair of its sessions in
/// order.
fn detect_pairs(kind: ConflictType, sessions: &[SessionInfo]) -> (r: Vec<ConflictInfo>)
    ensures
        reports_all(r@, kind, sessions@, pair_conflicts(kind, sessions@)),
{
    let groups = group_sessions_by_period(sessions);
    proof {
        lemma_period_groups_valid(sessions@, sessions@.len());
    }
    detect_in_groups(kind, sessions, &groups, Ghost(period_groups(sessions@)))
}

/// Pairs of sessions of the same period that share a classification code.
pub fn detect_classification_conflicts(sessions: &[SessionInfo]) -> (r: Vec<ConflictInfo>)
    ensures
        reports_all(r@, ConflictType::Classification, sessions@, pair_conflicts(ConflictType::Classification, sessions@)),
{
    detect_pairs(ConflictType::Classification, sessions)
}

/// Pairs of sessions of the same period that share a speaker or organizer.
pub fn detect_personal_conflicts(sessions: &[SessionInfo]) -> (r: Vec<ConflictInfo>)
    ensures
        reports_all(r@, ConflictType::Personal, sessions@, pair_conflicts(ConflictType::Personal, sessions@)),
{
    detect_pairs(ConflictType::Personal, sessions)
}

/// Pairs of sessions of the same period whose notes keywords match.
pub fn detect_personal_classification_conflicts(sessions: &[SessionInfo]) -> (r: Vec<ConflictInfo>)
    ensures
        reports_all(
            r@,
            ConflictType::PersonalClassification,
            sessions@,
            pair_conflicts(ConflictType::PersonalClassification, sessions@),
        ),
{
    detect_pairs(ConflictType::PersonalClassification, sessions)
}

// ===========================================================================
// Series of sessions
// ===========================================================================

/// The series base title of a session, if its title names a part.
pub open spec fn session_base(s: SessionInfo) -> Option<Seq<char>> {
    match series_info(s.title@) {
        Some(info) => Some(info.0),
        None => None,
    }
}

/// Session `i` is the first of its series.
pub open spec fn first_of_session_series(sessions: Seq<SessionInfo>, i: int) -> bool {
    &&& session_base(sessions[i]) is Some
    &&& forall|j: int| 0 <= j < i ==> #[trigger] session_base(sessions[j]) != session_base(sessions[i])
}

/// Where session `x` goes among indices sorted by period order: after every
/// session whose period comes no later.
pub open spec fn period_ins_point(sessions: Seq<SessionInfo>, s: Seq<usize>, x: usize) -> int
    decreases s.len(),
{
    if s.len() == 0 {
        0
    } else if period_order(sessions[s.last() as int].session_period@) <= period_order(sessions[x as int].session_period@) {
        s.len() as int
    } else {
        period_ins_point(sessions, s.drop_last(), x)
    }
}

/// The indices `i < end` of the sessions of series `b`, sorted by period
/// order; sessions of the same period keep their order.
pub open spec fn series_sessions_upto(sessions: Seq<SessionInfo>, b: Seq<char>, end: nat) -> Seq<usize>
    decreases end,
{
    if end == 0 {
        Seq::empty()
    } else {
        let prev = series_sessions_upto(sessions, b, (end - 1) as nat);
        if session_base(sessions[end - 1]) == Some(b) {
            prev.insert(period_ins_point(sessions, prev, (end - 1) as usize), (end - 1) as usize)
        } else {
            prev
        }
    }
}

/// The series whose first session is among the first `end`, in order, each
/// with its sessions sorted by period; series of a single session are left
/// out.
pub open spec fn series_groups_upto(sessions: Seq<SessionInfo>, end: nat) -> Seq<(Seq<char>, Seq<usize>)>
    decreases end,
{
    if end == 0 {
        Seq::empty()
    } else {
        let prev = series_groups_upto(sessions, (end - 1) as nat);
        if first_of_session_series(sessions, end - 1) {
            let b = session_base(sessions[end - 1])->0;
            let m = series_sessions_upto(sessions, b, sessions.len());
            if m.len() >= 2 {
                prev.push((b, m))
            } else {
                prev
            }
        } else {
            prev
        }
    }
}

/// The series of the schedule with at least two sessions.
pub open spec fn series_groups(sessions: Seq<SessionInfo>) -> Seq<(Seq<char>, Seq<usize>)> {
    series_groups_upto(sessions, sessions.len())
}

proof fn lemma_period_ins_point_range(sessions: Seq<SessionInfo>, s: Seq<usize>, x: usize)
    ensures
        0 <= period_ins_point(sessions, s, x) <= s.len(),
    decreases s.len(),
{
    if s.len() > 0 {
        lemma_period_ins_point_range(sessions, s.drop_last(), x);
    }
}

proof fn lemma_series_sessions_below(sessions: Seq<SessionInfo>, b: Seq<char>, end: nat)
    ensures
        forall|k: int| 0 <= k < series_sessions_upto(sessions, b, end).len() ==> #[trigger] series_sessions_upto(sessions, b, end)[k] < end,
    decreases end,
{
    if end > 0 {
        lemma_series_sessions_below(sessions, b, (end - 1) as nat);
        let prev = series_sessions_upto(sessions, b, (end - 1) as nat);
        let cur = series_sessions_upto(sessions, b, end);
        if session_base(sessions[end - 1]) == Some(b) {
            let p = period_ins_point(sessions, prev, (end - 1) as usize);
            lemma_period_ins_point_range(sessions, prev, (end - 1) as usize);
            assert forall|k: int| 0 <= k < cur.len() implies #[trigger] cur[k] < end by {
                if k < p {
                    assert(cur[k] == prev[k]);
                } else if k > p {
                    assert(cur[k] == prev[k - 1]);
                }
            }
        }
    }
}

/// Every index in the series groups names a session.
pub proof fn lemma_series_groups_valid(sessions: Seq<SessionInfo>, end: nat)
    requires
        end <= sessions.len(),
    ensures
        forall|g: int, k: int|
            0 <= g < series_groups_upto(sessions, end).len() && 0 <= k < series_groups_upto(sessions, end)[g].1.len()
                ==> #[trigger] series_groups_upto(sessions, end)[g].1[k] < sessions.len(),
    decreases end,
{
    if end > 0 {
        lemma_series_groups_valid(sessions, (end - 1) as nat);
        let prev = series_groups_upto(sessions, (end - 1) as nat);
        let cur = series_groups_upto(sessions, end);
        if first_of_session_series(sessions, end - 1) {
            let b = session_base(sessions[end - 1])->0;
            lemma_series_sessions_below(sessions, b, sessions.len());
        }
        assert forall|g: int, k: int| 0 <= g < cur.len() && 0 <= k < cur[g].1.len() implies #[trigger] cur[g].1[k]
            < sessions.len() by {
            if g < prev.len() {
                assert(cur[g] == prev[g]);
            }
        }
    }
}

/// The series base title of each session, when its title names a part.
fn session_bases(sessions: &[SessionInfo]) -> (r: Vec<Option<String>>)
    ensures
        r@.len() == sessions@.len(),
        forall|i: int| 0 <= i < r@.len() ==> match #[trigger] r@[i] {
            Some(b) => session_base(sessions@[i]) == Some(b@),
            None => session_base(sessions@[i]) is None,
        },
{
    let mut r: Vec<Option<String>> = Vec::new();
    let mut i: usize = 0;
    while i < sessions.len()
        invariant
            i <= sessions@.len(),
            r@.len() == i,
            forall|j: int| 0 <= j < i ==> match #[trigger] r@[j] {
                Some(b) => session_base(sessions@[j]) == Some(b@),
                None => session_base(sessions@[j]) is None,
            },
        decreases sessions.len() - i,
    {
        match extract_series_info(sessions[i].title.as_str()) {
            Some(info) => r.push(Some(info.0)),
            None => r.push(None),
        }
        i = i + 1;
    }
    r
}

/// The series with at least two sessions, each with its sessions sorted by
/// period (see `series_groups`).
pub fn group_series(sessions: &[SessionInfo]) -> (r: Vec<(String, Vec<usize>)>)
    ensures
        holds_groups(r@, series_groups(sessions@)),
{
    let ghost ss = sessions@;
    let bases = session_bases(sessions);
    let mut orders: Vec<usize> = Vec::new();
    let mut i: usize = 0;
    while i < sessions.len()
        invariant
            i <= ss.len(),
            ss == sessions@,
            orders@.len() == i,
            forall|j: int| 0 <= j < i ==> #[trigger] orders@[j] as nat == period_order(ss[j].session_period@),
        decreases sessions.len() - i,
    {
        orders.push(get_period_order(sessions[i].session_period.as_str()));
        i = i + 1;
    }
    let mut r: Vec<(String, Vec<usize>)> = Vec::new();
    let mut i: usize = 0;
    while i < sessions.len()
        invariant
            i <= ss.len(),
            ss == sessions@,
            bases@.len() == ss.len(),
            forall|i: int| 0 <= i < bases@.len() ==> match #[trigger] bases@[i] {
                Some(b) => session_base(ss[i]) == Some(b@),
                None => session_base(ss[i]) is None,
            },
            orders@.len() == ss.len(),
            forall|j: int| 0 <= j < ss.len() ==> #[trigger] orders@[j] as nat == period_order(ss[j].session_period@),
            holds_groups(r@, series_groups_upto(ss, i as nat)),
        decreases sessions.len() - i,
    {
        match &bases[i] {
            Some(b) => {
                let mut first = true;
                let mut j: usize = 0;
                while j < i
                    invariant
                        j <= i,
                        i < ss.len(),
                        bases@.len() == ss.len(),
                        forall|i: int| 0 <= i < bases@.len() ==> match #[trigger] bases@[i] {
                            Some(b) => session_base(ss[i]) == Some(b@),
                            None => session_base(ss[i]) is None,
                        },
                        bases@[i as int] == Some(*b),
                        first == forall|q: int| 0 <= q < j ==> #[trigger] session_base(ss[q]) != session_base(ss[i as int]),
                    decreases i - j,
                {
                    assert(session_base(ss[i as int]) == Some(b@));
                    match &bases[j] {
                        Some(c) => {
                            assert(session_base(ss[j as int]) == Some(c@));
                            if *c == *b {
                                first = false;
                            }
                        },
                        None => {
                            assert(session_base(ss[j as int]) is None);
                        },
                    }
                    j = j + 1;
                }
                assert(first == first_of_session_series(ss, i as int));
                if first {
                    let mut m: Vec<usize> = Vec::new();
                    let mut k: usize = 0;
                    while k < sessions.len()
                        invariant
                            ss == sessions@,
                            k <= ss.len(),
                            i < ss.len(),
                            bases@.len() == ss.len(),
                            forall|i: int| 0 <= i < bases@.len() ==> match #[trigger] bases@[i] {
                                Some(b) => session_base(ss[i]) == Some(b@),
                                None => session_base(ss[i]) is None,
                            },
                            orders@.len() == ss.len(),
                            forall|j: int| 0 <= j < ss.len() ==> #[trigger] orders@[j] as nat == period_order(ss[j].session_period@),
                            m@ == series_sessions_upto(ss, b@, k as nat),
                            forall|q: int| 0 <= q < m@.len() ==> #[trigger] m@[q] < k,
                        decreases sessions.len() - k,
                    {
                        let matches = match &bases[k] {
                            Some(c) => *c == *b,
                            None => false,
                        };
                        assert(matches == (session_base(ss[k as int]) == Some(b@)));
                        if matches {
                            let key = orders[k];
                            let ghost t = m@;
                            let mut p: usize = m.len();
                            assert(t.take(p as int) =~= t);
                            while p > 0 && orders[m[p - 1]] > key
                                invariant
                                    m@ == t,
                                    p <= t.len(),
                                    k < ss.len(),
                                    forall|q: int| 0 <= q < t.len() ==> #[trigger] t[q] < k,
                                    orders@.len() == ss.len(),
                                    forall|j: int| 0 <= j < ss.len() ==> #[trigger] orders@[j] as nat == period_order(ss[j].session_period@),
                                    key as nat == period_order(ss[k as int].session_period@),
                                    period_ins_point(ss, t, k) == period_ins_point(ss, t.take(p as int), k),
                                decreases p,
                            {
                                assert(t.take(p as int).drop_last() =~= t.take(p - 1));
                                assert(orders@[t[p - 1] as int] as nat == period_order(ss[t[p - 1] as int].session_period@));
                                p = p - 1;
                            }
                            proof {
                                if p > 0 {
                                    assert(orders@[t[p - 1] as int] as nat == period_order(ss[t[p - 1] as int].session_period@));
                                }
                            }
                            assert(t.take(0) =~= Seq::<usize>::empty());
                            m.insert(p, k);
                            proof {
                                assert forall|q: int| 0 <= q < m@.len() implies #[trigger] m@[q] < k + 1 by {
                                    if q < p {
                                        assert(m@[q] == t[q]);
                                    } else if q > p {
                                        assert(m@[q] == t[q - 1]);
                                    }
                                }
                            }
                        }
                        k = k + 1;
                    }
                    if m.len() >= 2 {
                        let ghost prev = r@;
                        r.push((b.clone(), m));
                        proof {
                            let g = series_groups_upto(ss, (i + 1) as nat);
                            assert forall|q: int| 0 <= q < r@.len() implies (#[trigger] r@[q]).0@ == g[q].0 && r@[q].1@ == g[q].1 by {
                                if q < prev.len() {
                                    assert(r@[q] == prev[q]);
                                }
                            }
                        }
                    }
                }
            },
            None => {
                assert(!first_of_session_series(ss, i as int));
            },
        }
        i = i + 1;
    }
    r
}

/// The conflicts of `kind` between sessions of the same series: for each
/// series with at least two sessions (in order of its first session), each
/// pair of its sessions sorted by period.
pub open spec fn series_conflicts(kind: ConflictType, sessions: Seq<SessionInfo>) -> Seq<(Seq<char>, usize, usize)> {
    all_hits(kind, sessions, series_groups(sessions), series_groups(sessions).len())
}

/// The series conflicts: parts of a series in different rooms, and
/// consecutive parts in the same period or in periods that are not adjacent.
pub fn detect_series_conflicts(sessions: &[SessionInfo]) -> (r: (Vec<ConflictInfo>, Vec<ConflictInfo>))
    ensures
        reports_all(r.0@, ConflictType::SeriesRoom, sessions@, series_conflicts(ConflictType::SeriesRoom, sessions@)),
        reports_all(
            r.1@,
            ConflictType::SeriesBackToBack,
            sessions@,
            series_conflicts(ConflictType::SeriesBackToBack, sessions@),
        ),
{
    let groups = group_series(sessions);
    proof {
        lemma_series_groups_valid(sessions@, sessions@.len());
    }
    let room = detect_in_groups(ConflictType::SeriesRoom, sessions, &groups, Ghost(series_groups(sessions@)));
    let back = detect_in_groups(ConflictType::SeriesBackToBack, sessions, &groups, Ghost(series_groups(sessions@)));
    (room, back)
}

/// A series as analysed: its base title, number of sessions, whether it has
/// no issue, its issues, and its sessions sorted by period.
#[derive(Clone, Debug)]
pub struct SeriesInfo {
    pub base_title: String,
    pub total_parts: usize,
    pub is_optimal: bool,
    pub issues: Vec<String>,
    pub sessions: Vec<SessionInfo>,
}

/// The series of a schedule and how many have no issue.
#[derive(Clone, Debug)]
pub struct SeriesAnalysisSummary {
    pub total_series: usize,
    pub optimal: usize,
    pub suboptimal: usize,
    pub series_list: Vec<SeriesInfo>,
}

/// `a` is a copy of `b`.
pub open spec fn same_session(a: SessionInfo, b: SessionInfo) -> bool {
    &&& a.id@ == b.id@
    &&& a.title@ == b.title@
    &&& a.session_period@ == b.session_period@
    &&& a.room@ == b.room@
    &&& a.classification@ == b.classification@
    &&& a.organizers@ == b.organizers@
    &&& a.speakers@ == b.speakers@
    &&& a.notes@ == b.notes@
}

/// The issues of two sessions of a series (the first in an earlier or the
/// same period): parts in different rooms; consecutive parts in parallel or
/// in periods that are not adjacent.
pub open spec fn pair_issues(s1: SessionInfo, s2: SessionInfo) -> Seq<Seq<char>> {
    (if series_room_clash(s1.title@, s1.room@, s2.title@, s2.room@) {
        seq!["Different rooms: "@ + s1.room@ + " vs "@ + s2.room@]
    } else {
        Seq::empty()
    }) + (if series_back_to_back_clash(s1.title@, s1.session_period@, s2.title@, s2.session_period@) {
        if period_order(s1.session_period@) == period_order(s2.session_period@) {
            seq!["Parts scheduled in parallel in "@ + s1.session_period@]
        } else {
            seq!["Non-consecutive periods"@]
        }
    } else {
        Seq::empty()
    })
}

/// The issues of member `i` of `m` with the members `i < j < end`.
pub open spec fn row_issues(sessions: Seq<SessionInfo>, m: Seq<usize>, i: int, end: nat) -> Seq<Seq<char>>
    decreases end,
{
    if end == 0 || end <= i + 1 {
        Seq::empty()
    } else {
        row_issues(sessions, m, i, (end - 1) as nat) + pair_issues(sessions[m[i] as int], sessions[m[end - 1] as int])
    }
}

/// The issues among the members of `m` whose first member is among the
/// first `end`.
pub open spec fn group_issues(sessions: Seq<SessionInfo>, m: Seq<usize>, end: nat) -> Seq<Seq<char>>
    decreases end,
{
    if end == 0 {
        Seq::empty()
    } else {
        group_issues(sessions, m, (end - 1) as nat) + row_issues(sessions, m, end - 1, m.len())
    }
}

/// `info` describes the series `b` with the sessions `m` (sorted by period).
pub open spec fn describes_series(info: SeriesInfo, sessions: Seq<SessionInfo>, b: Seq<char>, m: Seq<usize>) -> bool {
    let issues = group_issues(sessions, m, m.len());
    &&& info.base_title@ == b
    &&& info.total_parts == m.len()
    &&& views(info.issues@) == issues
    &&& info.is_optimal == (issues.len() == 0)
    &&& info.sessions@.len() == m.len()
    &&& forall|k: int| 0 <= k < m.len() ==> same_session(#[trigger] info.sessions@[k], sessions[m[k] as int])
}

/// The number of series among the first `end` described as having no issue.
pub open spec fn optimal_count(list: Seq<SeriesInfo>, end: nat) -> nat
    decreases end,
{
    if end == 0 {
        0
    } else {
        optimal_count(list, (end - 1) as nat) + if list[end - 1].is_optimal {
            1nat
        } else {
            0nat
        }
    }
}

/// A copy of a list of strings.
pub(crate) fn copy_strings(v: &Vec<String>) -> (r: Vec<String>)
    ensures
        r@ == v@,
{
    let mut r: Vec<String> = Vec::new();
    let mut i: usize = 0;
    while i < v.len()
        invariant
            i <= v@.len(),
            r@ == v@.take(i as int),
        decreases v.len() - i,
    {
        r.push(v[i].clone());
        i = i + 1;
        assert(r@ =~= v@.take(i as int));
    }
    assert(v@.take(v@.len() as int) =~= v@);
    r
}

/// A copy of a session.
pub fn copy_session(s: &SessionInfo) -> (r: SessionInfo)
    ensures
        same_session(r, *s),
{
    SessionInfo {
        id: s.id.clone(),
        title: s.title.clone(),
        session_period: s.session_period.clone(),
        room: s.room.clone(),
        classification: copy_strings(&s.classification),
        organizers: copy_strings(&s.organizers),
        speakers: copy_strings(&s.speakers),
        notes: s.notes.clone(),
    }
}

/// The issues of two sessions of a series.
fn pair_issues_exec(s1: &SessionInfo, s2: &SessionInfo, issues: &mut Vec<String>)
    ensures
        views(final(issues)@) == views(old(issues)@) + pair_issues(*s1, *s2),
{
    let ghost start = views(issues@);
    let ghost first: Seq<Seq<char>> = if series_room_clash(s1.title@, s1.room@, s2.title@, s2.room@) {
        seq!["Different rooms: "@ + s1.room@ + " vs "@ + s2.room@]
    } else {
        Seq::empty()
    };
    let ghost second: Seq<Seq<char>> = if series_back_to_back_clash(s1.title@, s1.session_period@, s2.title@, s2.session_period@) {
        if period_order(s1.session_period@) == period_order(s2.session_period@) {
            seq!["Parts scheduled in parallel in "@ + s1.session_period@]
        } else {
            seq!["Non-consecutive periods"@]
        }
    } else {
        Seq::empty()
    };
    if has_series_room_conflict(s1.title.as_str(), s1.room.as_str(), s2.title.as_str(), s2.room.as_str()) {
        let a = concat("Different rooms: ", s1.room.as_str());
        let b = concat(a.as_str(), " vs ");
        let c = concat(b.as_str(), s2.room.as_str());
        let ghost prev = issues@;
        issues.push(c);
        assert(views(issues@) =~= views(prev).push(c@));
        assert(views(issues@) =~= start + first);
    } else {
        assert(views(issues@) =~= start + first);
    }
    if has_series_back_to_back_conflict(
        s1.title.as_str(),
        s1.session_period.as_str(),
        s2.title.as_str(),
        s2.session_period.as_str(),
    ) {
        let order1 = get_period_order(s1.session_period.as_str());
        let order2 = get_period_order(s2.session_period.as_str());
        let text = if order1 == order2 {
            concat("Parts scheduled in parallel in ", s1.session_period.as_str())
        } else {
            let t = "Non-consecutive periods".to_owned();
            t
        };
        let ghost prev = issues@;
        issues.push(text);
        assert(views(issues@) =~= views(prev).push(text@));
        assert(views(issues@) =~= start + first + second);
    } else {
        assert(views(issues@) =~= start + first + second);
    }
    assert(pair_issues(*s1, *s2) == first + second);
    assert(start + first + second =~= start + (first + second));
}

/// Each series with at least two sessions (in order of its first session):
/// its sessions sorted by period, its issues, and whether it has none.
pub fn analyze_series(sessions: &[SessionInfo]) -> (r: SeriesAnalysisSummary)
    ensures
        r.series_list@.len() == series_groups(sessions@).len(),
        forall|g: int|
            0 <= g < r.series_list@.len() ==> describes_series(
                #[trigger] r.series_list@[g],
                sessions@,
                series_groups(sessions@)[g].0,
                series_groups(sessions@)[g].1,
            ),
        r.total_series == r.series_list@.len(),
        r.optimal == optimal_count(r.series_list@, r.series_list@.len()),
        r.optimal + r.suboptimal == r.total_series,
{
    let ghost ss = sessions@;
    let groups = group_series(sessions);
    let ghost gs = series_groups(ss);
    proof {
        lemma_series_groups_valid(ss, ss.len());
    }
    let mut list: Vec<SeriesInfo> = Vec::new();
    let mut optimal: usize = 0;
    let mut suboptimal: usize = 0;
    let mut g: usize = 0;
    while g < groups.len()
        invariant
            ss == sessions@,
            gs == series_groups(ss),
            holds_groups(groups@, gs),
            forall|g: int, k: int| 0 <= g < gs.len() && 0 <= k < gs[g].1.len() ==> #[trigger] gs[g].1[k] < ss.len(),
            g <= gs.len(),
            list@.len() == g,
            forall|q: int| 0 <= q < g ==> describes_series(#[trigger] list@[q], ss, gs[q].0, gs[q].1),
            optimal == optimal_count(list@, g as nat),
            optimal + suboptimal == g,
        decreases groups.len() - g,
    {
        let b = &groups[g].0;
        let m = &groups[g].1;
        assert(m@ == gs[g as int].1 && b@ == gs[g as int].0);
        let mut issues: Vec<String> = Vec::new();
        let mut i: usize = 0;
        while i < m.len()
            invariant
                ss == sessions@,
                forall|k: int| 0 <= k < m@.len() ==> #[trigger] m@[k] < ss.len(),
                i <= m@.len(),
                views(issues@) == group_issues(ss, m@, i as nat),
            decreases m.len() - i,
        {
            let mut j: usize = i + 1;
            let ghost before_row = group_issues(ss, m@, i as nat);
            assert(row_issues(ss, m@, i as int, j as nat) =~= Seq::<Seq<char>>::empty());
            while j < m.len()
                invariant
                    ss == sessions@,
                    forall|k: int| 0 <= k < m@.len() ==> #[trigger] m@[k] < ss.len(),
                    i < m@.len(),
                    i + 1 <= j <= m@.len(),
                    views(issues@) == before_row + row_issues(ss, m@, i as int, j as nat),
                decreases m.len() - j,
            {
                let a = m[i];
                let c = m[j];
                pair_issues_exec(&sessions[a], &sessions[c], &mut issues);
                j = j + 1;
                assert(before_row + row_issues(ss, m@, i as int, j as nat) =~= before_row + row_issues(ss, m@, i as int, (j - 1) as nat) + pair_issues(ss[a as int], ss[c as int]));
            }
            i = i + 1;
        }
        let mut parts: Vec<SessionInfo> = Vec::new();
        let mut k: usize = 0;
        while k < m.len()
            invariant
                ss == sessions@,
                forall|k: int| 0 <= k < m@.len() ==> #[trigger] m@[k] < ss.len(),
                k <= m@.len(),
                parts@.len() == k,
                forall|q: int| 0 <= q < k ==> same_session(#[trigger] parts@[q], ss[m@[q] as int]),
            decreases m.len() - k,
        {
            parts.push(copy_session(&sessions[m[k]]));
            k = k + 1;
        }
        let is_optimal = issues.len() == 0;
        let info = SeriesInfo {
            base_title: b.clone(),
            total_parts: m.len(),
            is_optimal,
            issues,
            sessions: parts,
        };
        let ghost prev = list@;
        list.push(info);
        proof {
            assert forall|q: int| 0 <= q < g + 1 implies describes_series(#[trigger] list@[q], ss, gs[q].0, gs[q].1) by {
                if q < g {
                    assert(list@[q] == prev[q]);
                }
            }
            assert(optimal_count(list@, g as nat) == optimal_count(prev, g as nat)) by {
                lemma_optimal_count_prefix(prev, list@, g as nat);
            }
        }
        if is_optimal {
            optimal = optimal + 1;
        } else {
            suboptimal = suboptimal + 1;
        }
        g = g + 1;
    }
    SeriesAnalysisSummary { total_series: list.len(), optimal, suboptimal, series_list: list }
}

proof fn lemma_optimal_count_prefix(a: Seq<SeriesInfo>, b: Seq<SeriesInfo>, end: nat)
    requires
        end <= a.len(),
        end <= b.len(),
        forall|q: int| 0 <= q < end ==> a[q] == b[q],
    ensures
        optimal_count(a, end) == optimal_count(b, end),
    decreases end,
{
    if end > 0 {
        lemma_optimal_count_prefix(a, b, (end - 1) as nat);
    }
}

// ===========================================================================
// Names and series bases read from cells
// ===========================================================================

/// The text with `" and "`, `" And "` and `" AND "` each replaced by `", "`
/// (in that order).
pub open spec fn and_to_comma(s: Seq<char>) -> Seq<char> {
    replace_all(replace_all(replace_all(s, " and "@, ", "@), " And "@, ", "@), " AND "@, ", "@)
}

/// The name is longer than one byte in UTF-8: two or more characters, or
/// one character outside ASCII.
pub open spec fn longer_than_one_byte(t: Seq<char>) -> bool {
    t.len() > 1 || (t.len() == 1 && t[0] as u32 >= 0x80)
}

/// The first `end` pieces, trimmed, keeping those longer than one byte in
/// UTF-8.
pub open spec fn kept_names(pieces: Seq<Seq<char>>, end: nat) -> Seq<Seq<char>>
    decreases end,
{
    if end == 0 {
        Seq::empty()
    } else {
        let prev = kept_names(pieces, (end - 1) as nat);
        let t = trim_spec(pieces[end - 1]);
        if t.len() > 0 && longer_than_one_byte(t) {
            prev.push(t)
        } else {
            prev
        }
    }
}

/// The names of a list such as `"A. Smith, B. Jones and C. Wu"`: `and`
/// becomes a comma, the list is split at commas and semicolons, each name is
/// trimmed, and names of one byte or less are dropped.
pub open spec fn people_list(input: Seq<char>) -> Seq<Seq<char>> {
    if input.len() == 0 {
        Seq::empty()
    } else {
        let pieces = split_list(and_to_comma(input));
        kept_names(pieces, pieces.len())
    }
}

/// The names listed in a cell (see `people_list`).
pub fn parse_people_list(input: &str) -> (r: Vec<String>)
    ensures
        views(r@) == people_list(input@),
{
    let v = chars_of(input);
    let mut r: Vec<String> = Vec::new();
    if v.len() == 0 {
        assert(views(r@) =~= Seq::<Seq<char>>::empty());
        return r;
    }
    let comma = chars_of(", ");
    let a = chars_of(" and ");
    let b = chars_of(" And ");
    let c = chars_of(" AND ");
    proof {
        reveal_strlit(" and ");
        reveal_strlit(" And ");
        reveal_strlit(" AND ");
    }
    let v1 = replace_all_chars(&v, &a, &comma);
    let v2 = replace_all_chars(&v1, &b, &comma);
    let v3 = replace_all_chars(&v2, &c, &comma);
    let pieces = split_list_chars(&v3);
    let ghost ps = split_list(and_to_comma(input@));
    let mut k: usize = 0;
    while k < pieces.len()
        invariant
            pieces@.len() == ps.len(),
            forall|i: int| 0 <= i < pieces@.len() ==> #[trigger] pieces@[i]@ == ps[i],
            k <= ps.len(),
            views(r@) == kept_names(ps, k as nat),
        decreases pieces.len() - k,
    {
        let t = trim_chars(&pieces[k]);
        let name = string_of(&t);
        assert(name@ == trim_spec(ps[k as int]));
        let long = t.len() > 1 || (t.len() == 1 && t[0] as u32 >= 0x80);
        if t.len() > 0 && long {
            let ghost prev = r@;
            r.push(name);
            assert(views(r@) =~= views(prev).push(name@));
        }
        k = k + 1;
    }
    r
}

/// The series base of a title for the bounds: the part before the first
/// `" - Part "`, or failing that before the first `"- Part"` (the title
/// has neither: no base), trimmed, lower-cased, keeping only alphanumeric
/// characters.
pub open spec fn series_base_of(title: Seq<char>) -> Option<Seq<char>> {
    if has_substring(title, " - Part "@) {
        Some(alphanumerics(lowercase_of(trim_spec(before_first(title, " - Part "@)))))
    } else if has_substring(title, "- Part"@) {
        Some(alphanumerics(lowercase_of(trim_spec(before_first(title, "- Part"@)))))
    } else {
        None
    }
}

/// The series base of a title (see `series_base_of`).
pub fn extract_series_base(title: &str) -> (r: Option<String>)
    ensures
        match r {
            Some(b) => series_base_of(title@) == Some(b@),
            None => series_base_of(title@) is None,
        },
{
    proof {
        reveal_strlit(" - Part ");
        reveal_strlit("- Part");
    }
    let has_spaced = contains_text(title, " - Part ");
    if has_spaced || contains_text(title, "- Part") {
        let v = chars_of(title);
        let p = if has_spaced {
            chars_of(" - Part ")
        } else {
            chars_of("- Part")
        };
        let before = before_first_chars(&v, &p);
        let trimmed = trim_chars(&before);
        let lowered = to_lowercase(string_of(&trimmed).as_str());
        let kept = keep_alphanumerics(&chars_of(lowered.as_str()));
        Some(string_of(&kept))
    } else {
        None
    }
}

// ===========================================================================
// Counting
// ===========================================================================

/// How often `x` occurs among the first `end` of `s`.
pub open spec fn count_in(s: Seq<Seq<char>>, x: Seq<char>, end: nat) -> nat
    decreases end,
{
    if end == 0 {
        0
    } else {
        count_in(s, x, (end - 1) as nat) + if s[end - 1] == x {
            1nat
        } else {
            0nat
        }
    }
}

/// The distinct texts among the first `end` of `s`, in order of first
/// occurrence.
pub open spec fn distinct_upto(s: Seq<Seq<char>>, end: nat) -> Seq<Seq<char>>
    decreases end,
{
    if end == 0 {
        Seq::empty()
    } else {
        let prev = distinct_upto(s, (end - 1) as nat);
        if prev.contains(s[end - 1]) {
            prev
        } else {
            prev.push(s[end - 1])
        }
    }
}

/// The distinct texts of `s`, in order of first occurrence.
pub open spec fn distinct(s: Seq<Seq<char>>) -> Seq<Seq<char>> {
    distinct_upto(s, s.len())
}

proof fn lemma_count_in_bound(s: Seq<Seq<char>>, x: Seq<char>, end: nat)
    ensures
        count_in(s, x, end) <= end,
    decreases end,
{
    if end > 0 {
        lemma_count_in_bound(s, x, (end - 1) as nat);
    }
}

/// How often `x` occurs in `v`.
pub(crate) fn count_strings(v: &Vec<String>, x: &String) -> (r: usize)
    ensures
        r == count_in(views(v@), x@, v@.len()),
{
    let mut n: usize = 0;
    let mut i: usize = 0;
    while i < v.len()
        invariant
            i <= v@.len(),
            n == count_in(views(v@), x@, i as nat),
            n <= i,
        decreases v.len() - i,
    {
        if v[i] == *x {
            n = n + 1;
        }
        i = i + 1;
    }
    n
}

/// The distinct strings of `v`, in order of first occurrence.
pub(crate) fn distinct_strings(v: &Vec<String>) -> (r: Vec<String>)
    ensures
        views(r@) == distinct(views(v@)),
{
    let mut r: Vec<String> = Vec::new();
    let mut i: usize = 0;
    while i < v.len()
        invariant
            i <= v@.len(),
            views(r@) == distinct_upto(views(v@), i as nat),
        decreases v.len() - i,
    {
        let mut seen = false;
        let mut j: usize = 0;
        while j < r.len()
            invariant
                i < v@.len(),
                j <= r@.len(),
                seen == exists|q: int| 0 <= q < j && #[trigger] r@[q]@ == v@[i as int]@,
            decreases r.len() - j,
        {
            if r[j] == v[i] {
                seen = true;
            }
            j = j + 1;
        }
        proof {
            if seen {
                let q = choose|q: int| 0 <= q < r@.len() && #[trigger] r@[q]@ == v@[i as int]@;
                assert(views(r@)[q] == views(v@)[i as int]);
            } else {
                if views(r@).contains(views(v@)[i as int]) {
                    let q = choose|q: int| 0 <= q < views(r@).len() && views(r@)[q] == views(v@)[i as int];
                    assert(r@[q]@ == v@[i as int]@);
                }
            }
        }
        if !seen {
            let ghost prev = r@;
            r.push(v[i].clone());
            assert(views(r@) =~= views(prev).push(v@[i as int]@));
        }
        i = i + 1;
    }
    r
}

/// The conflicts of `list` reported in period `p`, among the first `end`.
pub open spec fn with_period(list: Seq<ConflictInfo>, p: Seq<char>, end: nat) -> nat
    decreases end,
{
    if end == 0 {
        0
    } else {
        with_period(list, p, (end - 1) as nat) + if list[end - 1].period@ == p {
            1nat
        } else {
            0nat
        }
    }
}

/// How many conflicts of `list` are reported in period `p`.
fn count_with_period(list: &Vec<ConflictInfo>, p: &String) -> (r: usize)
    ensures
        r == with_period(list@, p@, list@.len()),
{
    let mut n: usize = 0;
    let mut i: usize = 0;
    while i < list.len()
        invariant
            i <= list@.len(),
            n == with_period(list@, p@, i as nat),
            n <= i,
        decreases list.len() - i,
    {
        if list[i].period == *p {
            n = n + 1;
        }
        i = i + 1;
    }
    n
}

// ===========================================================================
// Statistics
// ===========================================================================

/// The conflicts found, by kind.
#[derive(Clone, Debug)]
pub struct ConflictDetails {
    pub classification: Vec<ConflictInfo>,
    pub personal: Vec<ConflictInfo>,
    pub personal_classification: Vec<ConflictInfo>,
    pub series_room: Vec<ConflictInfo>,
    pub series_back_to_back: Vec<ConflictInfo>,
}

/// The sessions of a period and its pairwise conflicts.
#[derive(Clone, Copy, Debug)]
pub struct PeriodAnalysis {
    pub session_count: usize,
    pub classification_conflicts: usize,
    pub personal_conflicts: usize,
    pub personal_classification_conflicts: usize,
}

/// How a room is used: its number of sessions and its periods.
#[derive(Clone, Debug)]
pub struct RoomUsage {
    pub total_sessions: usize,
    pub periods: Vec<String>,
}

/// The counts behind the analysis statistics: the number of pairs of
/// sessions in the same period, each period's analysis, each room's usage,
/// and how often each classification code is used.
#[derive(Clone, Debug)]
pub struct StatisticsCounts {
    pub total_possible_pairs: usize,
    pub by_period: Vec<(String, PeriodAnalysis)>,
    pub room_usage: Vec<(String, RoomUsage)>,
    pub classification_distribution: Vec<(String, usize)>,
}

/// The number of pairs among `n`.
pub open spec fn pairs_of(n: nat) -> nat {
    (n * (n - 1) / 2) as nat
}

/// The number of pairs of sessions within each of the first `end` groups.
pub open spec fn pairs_in_groups(groups: Seq<(Seq<char>, Seq<usize>)>, end: nat) -> nat
    decreases end,
{
    if end == 0 {
        0
    } else {
        pairs_in_groups(groups, (end - 1) as nat) + pairs_of(groups[end - 1].1.len())
    }
}

/// Session `i` is the first in its room.
pub open spec fn first_in_room(sessions: Seq<SessionInfo>, i: int) -> bool {
    forall|j: int| 0 <= j < i ==> #[trigger] sessions[j].room@ != sessions[i].room@
}

/// The rooms in order of their first session.
pub open spec fn rooms_upto(sessions: Seq<SessionInfo>, end: nat) -> Seq<Seq<char>>
    decreases end,
{
    if end == 0 {
        Seq::empty()
    } else {
        let prev = rooms_upto(sessions, (end - 1) as nat);
        if first_in_room(sessions, end - 1) {
            prev.push(sessions[end - 1].room@)
        } else {
            prev
        }
    }
}

/// The periods of the first `end` sessions that are held in `room`, in
/// order of first occurrence.
pub open spec fn room_periods(sessions: Seq<SessionInfo>, room: Seq<char>, end: nat) -> Seq<Seq<char>>
    decreases end,
{
    if end == 0 {
        Seq::empty()
    } else {
        let prev = room_periods(sessions, room, (end - 1) as nat);
        let s = sessions[end - 1];
        if s.room@ == room && !prev.contains(s.session_period@) {
            prev.push(s.session_period@)
        } else {
            prev
        }
    }
}

/// The number of the first `end` sessions held in `room`.
pub open spec fn room_count(sessions: Seq<SessionInfo>, room: Seq<char>, end: nat) -> nat
    decreases end,
{
    if end == 0 {
        0
    } else {
        room_count(sessions, room, (end - 1) as nat) + if sessions[end - 1].room@ == room {
            1nat
        } else {
            0nat
        }
    }
}

/// The classification codes of the first `end` sessions, session by
/// session, repeats kept.
pub open spec fn all_codes(sessions: Seq<SessionInfo>, end: nat) -> Seq<Seq<char>>
    decreases end,
{
    if end == 0 {
        Seq::empty()
    } else {
        all_codes(sessions, (end - 1) as nat) + views(sessions[end - 1].classification@)
    }
}

/// The statistics counts describe the sessions and conflicts (see
/// `StatisticsCounts`): periods and rooms in order of their first session,
/// codes in order of first use.
pub open spec fn statistics_of(st: StatisticsCounts, sessions: Seq<SessionInfo>, c: ConflictDetails) -> bool {
    let groups = period_groups(sessions);
    let rooms = rooms_upto(sessions, sessions.len());
    let codes = all_codes(sessions, sessions.len());
    &&& st.total_possible_pairs == pairs_in_groups(groups, groups.len())
    &&& st.by_period@.len() == groups.len()
    &&& forall|g: int|
        0 <= g < groups.len() ==> {
            let e = #[trigger] st.by_period@[g];
            &&& e.0@ == groups[g].0
            &&& e.1.session_count == groups[g].1.len()
            &&& e.1.classification_conflicts == with_period(c.classification@, groups[g].0, c.classification@.len())
            &&& e.1.personal_conflicts == with_period(c.personal@, groups[g].0, c.personal@.len())
            &&& e.1.personal_classification_conflicts == with_period(
                c.personal_classification@,
                groups[g].0,
                c.personal_classification@.len(),
            )
        }
    &&& st.room_usage@.len() == rooms.len()
    &&& forall|k: int|
        0 <= k < rooms.len() ==> {
            let e = #[trigger] st.room_usage@[k];
            &&& e.0@ == rooms[k]
            &&& e.1.total_sessions == room_count(sessions, rooms[k], sessions.len())
            &&& views(e.1.periods@) == room_periods(sessions, rooms[k], sessions.len())
        }
    &&& st.classification_distribution@.len() == distinct(codes).len()
    &&& forall|k: int|
        0 <= k < distinct(codes).len() ==> {
            let e = #[trigger] st.classification_distribution@[k];
            &&& e.0@ == distinct(codes)[k]
            &&& e.1 == count_in(codes, distinct(codes)[k], codes.len())
        }
}

/// The number of pairs among `n`, computed without overflow.
fn pairs_exec(n: usize) -> (r: u128)
    ensures
        r == pairs_of(n as nat),
{
    let m = n as u128;
    if m == 0 {
        return 0;
    }
    assert(m * (m - 1) <= 0xffff_ffff_ffff_ffffu128 * 0xffff_ffff_ffff_ffffu128) by (nonlinear_arith)
        requires
            m <= 0xffff_ffff_ffff_ffffu128,
            m >= 1,
    ;
    m * (m - 1) / 2
}

proof fn lemma_pairs_in_groups_grow(groups: Seq<(Seq<char>, Seq<usize>)>, a: nat, b: nat)
    requires
        a <= b,
    ensures
        pairs_in_groups(groups, a) <= pairs_in_groups(groups, b),
    decreases b,
{
    if a < b {
        lemma_pairs_in_groups_grow(groups, a, (b - 1) as nat);
    }
}

/// Whether `v` holds a string with the characters of `x`.
fn holds_text(v: &Vec<String>, x: &String) -> (r: bool)
    ensures
        r == views(v@).contains(x@),
{
    let mut i: usize = 0;
    while i < v.len()
        invariant
            i <= v@.len(),
            forall|q: int| 0 <= q < i ==> #[trigger] v@[q]@ != x@,
        decreases v.len() - i,
    {
        if v[i] == *x {
            assert(views(v@)[i as int] == x@);
            return true;
        }
        i = i + 1;
    }
    proof {
        if views(v@).contains(x@) {
            let q = choose|q: int| 0 <= q < views(v@).len() && views(v@)[q] == x@;
            assert(v@[q]@ == x@);
        }
    }
    false
}

/// The usage of the room of session `i`.
fn room_usage_of(sessions: &[SessionInfo], room: &String) -> (r: RoomUsage)
    ensures
        r.total_sessions == room_count(sessions@, room@, sessions@.len()),
        views(r.periods@) == room_periods(sessions@, room@, sessions@.len()),
{
    let mut total: usize = 0;
    let mut periods: Vec<String> = Vec::new();
    let mut i: usize = 0;
    while i < sessions.len()
        invariant
            i <= sessions@.len(),
            total == room_count(sessions@, room@, i as nat),
            total <= i,
            views(periods@) == room_periods(sessions@, room@, i as nat),
        decreases sessions.len() - i,
    {
        if sessions[i].room == *room {
            total = total + 1;
            if !holds_text(&periods, &sessions[i].session_period) {
                let ghost prev = periods@;
                periods.push(sessions[i].session_period.clone());
                assert(views(periods@) =~= views(prev).push(sessions@[i as int].session_period@));
            }
        }
        i = i + 1;
    }
    RoomUsage { total_sessions: total, periods }
}

/// The classification codes of all sessions, session by session.
fn codes_of(sessions: &[SessionInfo]) -> (r: Vec<String>)
    ensures
        views(r@) == all_codes(sessions@, sessions@.len()),
{
    let mut r: Vec<String> = Vec::new();
    let mut i: usize = 0;
    while i < sessions.len()
        invariant
            i <= sessions@.len(),
            views(r@) == all_codes(sessions@, i as nat),
        decreases sessions.len() - i,
    {
        let c = &sessions[i].classification;
        let ghost before = views(r@);
        let mut j: usize = 0;
        while j < c.len()
            invariant
                i < sessions@.len(),
                c@ == sessions@[i as int].classification@,
                j <= c@.len(),
                views(r@) == before + views(c@.take(j as int)),
            decreases c.len() - j,
        {
            let ghost prev = r@;
            r.push(c[j].clone());
            assert(views(r@) =~= views(prev).push(c@[j as int]@));
            j = j + 1;
            assert(views(c@.take(j as int)) =~= views(c@.take(j - 1)).push(c@[j - 1]@));
        }
        assert(c@.take(c@.len() as int) =~= c@);
        i = i + 1;
    }
    r
}

/// The counts behind the analysis statistics (see `statistics_of`).
pub fn calculate_statistics(sessions: &[SessionInfo], all_conflicts: &ConflictDetails) -> (r: StatisticsCounts)
    requires
        pairs_in_groups(period_groups(sessions@), period_groups(sessions@).len()) <= usize::MAX,
    ensures
        statistics_of(r, sessions@, *all_conflicts),
{
    let ghost ss = sessions@;
    let ghost gs = period_groups(ss);
    let groups = group_sessions_by_period(sessions);
    let mut total: usize = 0;
    let mut by_period: Vec<(String, PeriodAnalysis)> = Vec::new();
    let mut g: usize = 0;
    while g < groups.len()
        invariant
            ss == sessions@,
            gs == period_groups(ss),
            holds_groups(groups@, gs),
            pairs_in_groups(gs, gs.len()) <= usize::MAX,
            g <= gs.len(),
            total == pairs_in_groups(gs, g as nat),
            by_period@.len() == g,
            forall|q: int|
                0 <= q < g ==> {
                    let e = #[trigger] by_period@[q];
                    &&& e.0@ == gs[q].0
                    &&& e.1.session_count == gs[q].1.len()
                    &&& e.1.classification_conflicts == with_period(all_conflicts.classification@, gs[q].0, all_conflicts.classification@.len())
                    &&& e.1.personal_conflicts == with_period(all_conflicts.personal@, gs[q].0, all_conflicts.personal@.len())
                    &&& e.1.personal_classification_conflicts == with_period(
                        all_conflicts.personal_classification@,
                        gs[q].0,
                        all_conflicts.personal_classification@.len(),
                    )
                },
        decreases groups.len() - g,
    {
        let period = &groups[g].0;
        let n = groups[g].1.len();
        proof {
            lemma_pairs_in_groups_grow(gs, (g + 1) as nat, gs.len());
        }
        let pairs = pairs_exec(n);
        total = total + pairs as usize;
        let analysis = PeriodAnalysis {
            session_count: n,
            classification_conflicts: count_with_period(&all_conflicts.classification, period),
            personal_conflicts: count_with_period(&all_conflicts.personal, period),
            personal_classification_conflicts: count_with_period(&all_conflicts.personal_classification, period),
        };
        let ghost prev = by_period@;
        by_period.push((period.clone(), analysis));
        proof {
            assert forall|q: int|
                0 <= q < g + 1 implies {
                    let e = #[trigger] by_period@[q];
                    &&& e.0@ == gs[q].0
                    &&& e.1.session_count == gs[q].1.len()
                    &&& e.1.classification_conflicts == with_period(all_conflicts.classification@, gs[q].0, all_conflicts.classification@.len())
                    &&& e.1.personal_conflicts == with_period(all_conflicts.personal@, gs[q].0, all_conflicts.personal@.len())
                    &&& e.1.personal_classification_conflicts == with_period(
                        all_conflicts.personal_classification@,
                        gs[q].0,
                        all_conflicts.personal_classification@.len(),
                    )
                } by {
                if q < g {
                    assert(by_period@[q] == prev[q]);
                }
            }
        }
        g = g + 1;
    }
    let mut room_usage: Vec<(String, RoomUsage)> = Vec::new();
    let mut i: usize = 0;
    while i < sessions.len()
        invariant
            ss == sessions@,
            i <= ss.len(),
            room_usage@.len() == rooms_upto(ss, i as nat).len(),
            forall|k: int|
                0 <= k < room_usage@.len() ==> {
                    let e = #[trigger] room_usage@[k];
                    &&& e.0@ == rooms_upto(ss, i as nat)[k]
                    &&& e.1.total_sessions == room_count(ss, rooms_upto(ss, i as nat)[k], ss.len())
                    &&& views(e.1.periods@) == room_periods(ss, rooms_upto(ss, i as nat)[k], ss.len())
                },
        decreases sessions.len() - i,
    {
        let mut first = true;
        let mut j: usize = 0;
        while j < i
            invariant
                j <= i,
                i < ss.len(),
                ss == sessions@,
                first == forall|q: int| 0 <= q < j ==> #[trigger] ss[q].room@ != ss[i as int].room@,
            decreases i - j,
        {
            if sessions[j].room == sessions[i].room {
                first = false;
            }
            j = j + 1;
        }
        let ghost before = rooms_upto(ss, i as nat);
        if first {
            let usage = room_usage_of(sessions, &sessions[i].room);
            let ghost prev = room_usage@;
            room_usage.push((sessions[i].room.clone(), usage));
            proof {
                let after = rooms_upto(ss, (i + 1) as nat);
                assert(after == before.push(ss[i as int].room@));
                assert forall|k: int|
                    0 <= k < room_usage@.len() implies {
                        let e = #[trigger] room_usage@[k];
                        &&& e.0@ == after[k]
                        &&& e.1.total_sessions == room_count(ss, after[k], ss.len())
                        &&& views(e.1.periods@) == room_periods(ss, after[k], ss.len())
                    } by {
                    if k < prev.len() {
                        assert(room_usage@[k] == prev[k]);
                    }
                }
            }
        }
        i = i + 1;
    }
    let codes = codes_of(sessions);
    let distinct_codes = distinct_strings(&codes);
    let mut distribution: Vec<(String, usize)> = Vec::new();
    let mut k: usize = 0;
    while k < distinct_codes.len()
        invariant
            k <= distinct_codes@.len(),
            distribution@.len() == k,
            forall|q: int|
                0 <= q < k ==> {
                    let e = #[trigger] distribution@[q];
                    &&& e.0@ == views(distinct_codes@)[q]
                    &&& e.1 == count_in(views(codes@), views(distinct_codes@)[q], codes@.len())
                },
        decreases distinct_codes.len() - k,
    {
        let n = count_strings(&codes, &distinct_codes[k]);
        let ghost prev = distribution@;
        distribution.push((distinct_codes[k].clone(), n));
        proof {
            assert forall|q: int|
                0 <= q < k + 1 implies {
                    let e = #[trigger] distribution@[q];
                    &&& e.0@ == views(distinct_codes@)[q]
                    &&& e.1 == count_in(views(codes@), views(distinct_codes@)[q], codes@.len())
                } by {
                if q < k {
                    assert(distribution@[q] == prev[q]);
                }
            }
        }
        k = k + 1;
    }
    StatisticsCounts {
        total_possible_pairs: total,
        by_period,
        room_usage,
        classification_distribution: distribution,
    }
}

// ===========================================================================
// Theoretical bounds
// ===========================================================================

/// A lower bound on the conflicts of one kind, beside the current count.
#[derive(Clone, Debug)]
pub struct BoundInfo {
    pub theoretical_min: usize,
    pub current: usize,
    pub gap: i32,
    pub is_optimal: bool,
    pub explanation: String,
}

/// The bounds of the five kinds.
#[derive(Clone, Debug)]
pub struct TheoreticalBounds {
    pub speaker_organizer: BoundInfo,
    pub personal_classification: BoundInfo,
    pub series_room: BoundInfo,
    pub series_back_to_back: BoundInfo,
    pub classification: BoundInfo,
}

/// `b` holds the bound `min`, the current count, their difference as
/// 32-bit integers (wrapping), `optimal` and the explanation `text`.
pub open spec fn bound_is(b: BoundInfo, min: nat, current: nat, optimal: bool, text: Seq<char>) -> bool {
    &&& b.theoretical_min == min
    &&& b.current == current
    &&& b.gap == (current as i32).wrapping_sub(min as i32)
    &&& b.is_optimal == optimal
    &&& b.explanation@ == text
}

/// The largest count of an entry among the first `end` of `s` (0 when none).
pub open spec fn max_count_upto(s: Seq<Seq<char>>, end: nat) -> nat
    decreases end,
{
    if end == 0 {
        0
    } else {
        let prev = max_count_upto(s, (end - 1) as nat);
        let c = count_in(s, s[end - 1], s.len());
        if c > prev {
            c
        } else {
            prev
        }
    }
}

/// The non-empty normalised names of the people of the members `k < end` of
/// `m`: speakers, then organizers, session by session.
pub open spec fn slot_names(sessions: Seq<SessionInfo>, m: Seq<usize>, end: nat) -> Seq<Seq<char>>
    decreases end,
{
    if end == 0 {
        Seq::empty()
    } else {
        let s = sessions[m[end - 1] as int];
        let people = s.speakers@ + s.organizers@;
        slot_names(sessions, m, (end - 1) as nat) + normalized_names(people, people.len())
    }
}

/// The most sessions any one person has in one period, over the first `end`
/// period groups.
pub open spec fn max_person_load(sessions: Seq<SessionInfo>, groups: Seq<(Seq<char>, Seq<usize>)>, end: nat) -> nat
    decreases end,
{
    if end == 0 {
        0
    } else {
        let prev = max_person_load(sessions, groups, (end - 1) as nat);
        let names = slot_names(sessions, groups[end - 1].1, groups[end - 1].1.len());
        let c = max_count_upto(names, names.len());
        if c > prev {
            c
        } else {
            prev
        }
    }
}

/// The notes keywords of the first `end` sessions that have one (non-empty
/// after normalising, and without the header word `notes`).
pub open spec fn keywords_upto(sessions: Seq<SessionInfo>, end: nat) -> Seq<Seq<char>>
    decreases end,
{
    if end == 0 {
        Seq::empty()
    } else {
        let prev = keywords_upto(sessions, (end - 1) as nat);
        let n = normalize_spec(sessions[end - 1].notes@);
        if n.len() > 0 && !has_substring(n, "notes"@) {
            prev.push(n)
        } else {
            prev
        }
    }
}

/// The least number of personal-classification conflicts forced by a
/// keyword used `count` times over 8 periods: with more than 8 sessions, the
/// pairs among ceil(count / 8) sessions.
pub open spec fn keyword_min(count: nat) -> nat {
    if count > 8 {
        let per_slot = (count + 7) / 8;
        if per_slot > 1 {
            pairs_of(per_slot)
        } else {
            0
        }
    } else {
        0
    }
}

/// The forced conflicts of the first `end` distinct keywords `d` of `k`.
pub open spec fn keywords_min(k: Seq<Seq<char>>, d: Seq<Seq<char>>, end: nat) -> nat
    decreases end,
{
    if end == 0 {
        0
    } else {
        keywords_min(k, d, (end - 1) as nat) + keyword_min(count_in(k, d[end - 1], k.len()))
    }
}

/// The series bases (see `series_base_of`) of the first `end` sessions
/// whose title has one.
pub open spec fn bases_upto(sessions: Seq<SessionInfo>, end: nat) -> Seq<Seq<char>>
    decreases end,
{
    if end == 0 {
        Seq::empty()
    } else {
        let prev = bases_upto(sessions, (end - 1) as nat);
        match series_base_of(sessions[end - 1].title@) {
            Some(b) => prev.push(b),
            None => prev,
        }
    }
}

/// How many of the first `end` distinct bases `d` have at least three
/// sessions among `b`.
pub open spec fn long_series(b: Seq<Seq<char>>, d: Seq<Seq<char>>, end: nat) -> nat
    decreases end,
{
    if end == 0 {
        0
    } else {
        long_series(b, d, (end - 1) as nat) + if count_in(b, d[end - 1], b.len()) >= 3 {
            1nat
        } else {
            0nat
        }
    }
}

/// The classification codes of the members `k < end` of `m`.
pub open spec fn slot_codes(sessions: Seq<SessionInfo>, m: Seq<usize>, end: nat) -> Seq<Seq<char>>
    decreases end,
{
    if end == 0 {
        Seq::empty()
    } else {
        slot_codes(sessions, m, (end - 1) as nat) + views(sessions[m[end - 1] as int].classification@)
    }
}

/// The pairs of equal codes among `codes`, over the first `end` distinct
/// codes `d`.
pub open spec fn code_pairs(codes: Seq<Seq<char>>, d: Seq<Seq<char>>, end: nat) -> nat
    decreases end,
{
    if end == 0 {
        0
    } else {
        code_pairs(codes, d, (end - 1) as nat) + pairs_of(count_in(codes, d[end - 1], codes.len()))
    }
}

/// The classification density of the first `end` period groups: the pairs
/// of sessions of a period sharing each code, summed over codes and periods.
pub open spec fn class_density(sessions: Seq<SessionInfo>, groups: Seq<(Seq<char>, Seq<usize>)>, end: nat) -> nat
    decreases end,
{
    if end == 0 {
        0
    } else {
        let codes = slot_codes(sessions, groups[end - 1].1, groups[end - 1].1.len());
        class_density(sessions, groups, (end - 1) as nat) + code_pairs(codes, distinct(codes), distinct(codes).len())
    }
}

/// `kw` is reported as the most constrained keyword: one with the most
/// sessions, or the empty text when no session has a keyword.
pub open spec fn most_constrained(k: Seq<Seq<char>>, kw: Seq<char>) -> bool {
    let d = distinct(k);
    if d.len() == 0 {
        kw.len() == 0
    } else {
        exists|i: int| 0 <= i < d.len() && d[i] == kw && count_in(k, kw, k.len()) == max_count_upto(k, k.len())
    }
}

/// The largest count of an entry of `v` (0 when `v` is empty).
pub(crate) fn max_count_exec(v: &Vec<String>) -> (r: usize)
    ensures
        r == max_count_upto(views(v@), v@.len()),
{
    let mut best: usize = 0;
    let mut i: usize = 0;
    while i < v.len()
        invariant
            i <= v@.len(),
            best == max_count_upto(views(v@), i as nat),
        decreases v.len() - i,
    {
        let c = count_strings(v, &v[i]);
        if c > best {
            best = c;
        }
        i = i + 1;
    }
    best
}

/// The non-empty normalised names of the people of the sessions `m`.
fn slot_names_exec(sessions: &[SessionInfo], m: &Vec<usize>) -> (r: Vec<String>)
    requires
        forall|k: int| 0 <= k < m@.len() ==> #[trigger] m@[k] < sessions@.len(),
    ensures
        views(r@) == slot_names(sessions@, m@, m@.len()),
{
    let mut r: Vec<String> = Vec::new();
    let mut k: usize = 0;
    while k < m.len()
        invariant
            forall|k: int| 0 <= k < m@.len() ==> #[trigger] m@[k] < sessions@.len(),
            k <= m@.len(),
            views(r@) == slot_names(sessions@, m@, k as nat),
        decreases m.len() - k,
    {
        let s = &sessions[m[k]];
        let mut people: Vec<String> = copy_strings(&s.speakers);
        let mut j: usize = 0;
        while j < s.organizers.len()
            invariant
                j <= s.organizers@.len(),
                people@ == s.speakers@ + s.organizers@.take(j as int),
            decreases s.organizers.len() - j,
        {
            people.push(s.organizers[j].clone());
            j = j + 1;
            assert(people@ =~= s.speakers@ + s.organizers@.take(j as int));
        }
        assert(s.organizers@.take(j as int) =~= s.organizers@);
        let names = normalized_names_exec(&people);
        let ghost before = views(r@);
        let mut q: usize = 0;
        while q < names.len()
            invariant
                q <= names@.len(),
                views(r@) == before + views(names@).take(q as int),
            decreases names.len() - q,
        {
            let ghost prev = r@;
            r.push(names[q].clone());
            assert(views(r@) =~= views(prev).push(names@[q as int]@));
            q = q + 1;
            assert(views(names@).take(q as int) =~= views(names@).take(q - 1).push(names@[q - 1]@));
        }
        assert(views(names@).take(names@.len() as int) =~= views(names@));
        k = k + 1;
    }
    r
}

/// The classification codes of the sessions `m`.
fn slot_codes_exec(sessions: &[SessionInfo], m: &Vec<usize>) -> (r: Vec<String>)
    requires
        forall|k: int| 0 <= k < m@.len() ==> #[trigger] m@[k] < sessions@.len(),
    ensures
        views(r@) == slot_codes(sessions@, m@, m@.len()),
{
    let mut r: Vec<String> = Vec::new();
    let mut k: usize = 0;
    while k < m.len()
        invariant
            forall|k: int| 0 <= k < m@.len() ==> #[trigger] m@[k] < sessions@.len(),
            k <= m@.len(),
            views(r@) == slot_codes(sessions@, m@, k as nat),
        decreases m.len() - k,
    {
        let c = &sessions[m[k]].classification;
        let ghost before = views(r@);
        let mut q: usize = 0;
        while q < c.len()
            invariant
                q <= c@.len(),
                views(r@) == before + views(c@.take(q as int)),
            decreases c.len() - q,
        {
            let ghost prev = r@;
            r.push(c[q].clone());
            assert(views(r@) =~= views(prev).push(c@[q as int]@));
            q = q + 1;
            assert(views(c@.take(q as int)) =~= views(c@.take(q - 1)).push(c@[q - 1]@));
        }
        assert(c@.take(c@.len() as int) =~= c@);
        k = k + 1;
    }
    r
}

/// The notes keywords of the sessions that have one.
fn keywords_exec(sessions: &[SessionInfo]) -> (r: Vec<String>)
    ensures
        views(r@) == keywords_upto(sessions@, sessions@.len()),
{
    let mut r: Vec<String> = Vec::new();
    let mut i: usize = 0;
    while i < sessions.len()
        invariant
            i <= sessions@.len(),
            views(r@) == keywords_upto(sessions@, i as nat),
        decreases sessions.len() - i,
    {
        let n = normalize_exact(sessions[i].notes.as_str());
        if !n.as_str().is_empty() && !contains_text(n.as_str(), "notes") {
            let ghost prev = r@;
            r.push(n);
            assert(views(r@) =~= views(prev).push(normalize_spec(sessions@[i as int].notes@)));
        }
        i = i + 1;
    }
    r
}

/// The series bases of the sessions whose title has one.
fn bases_exec(sessions: &[SessionInfo]) -> (r: Vec<String>)
    ensures
        views(r@) == bases_upto(sessions@, sessions@.len()),
{
    let mut r: Vec<String> = Vec::new();
    let mut i: usize = 0;
    while i < sessions.len()
        invariant
            i <= sessions@.len(),
            views(r@) == bases_upto(sessions@, i as nat),
        decreases sessions.len() - i,
    {
        match extract_series_base(sessions[i].title.as_str()) {
            Some(b) => {
                let ghost prev = r@;
                let ghost bv = b@;
                r.push(b);
                assert(views(r@) =~= views(prev).push(bv));
            },
            None => {},
        }
        i = i + 1;
    }
    r
}

/// The forced conflicts of a keyword used `count` times.
fn keyword_min_exec(count: usize) -> (r: u128)
    ensures
        r == keyword_min(count as nat),
{
    if count > 8 {
        let per_slot = (count as u128 + 7) / 8;
        if per_slot > 1 {
            assert(per_slot <= 0x4000_0000_0000_0000u128);
            assert(per_slot * (per_slot - 1) <= 0x4000_0000_0000_0000u128 * 0x4000_0000_0000_0000u128) by (nonlinear_arith)
                requires
                    per_slot <= 0x4000_0000_0000_0000u128,
                    per_slot >= 1,
            ;
            return per_slot * (per_slot - 1) / 2;
        }
    }
    0
}

/// A bound with the difference of the current count and the bound as
/// 32-bit integers.
fn bound_info(min: usize, current: usize, optimal: bool, explanation: String) -> (r: BoundInfo)
    ensures
        bound_is(r, min as nat, current as nat, optimal, explanation@),
{
    BoundInfo {
        theoretical_min: min,
        current,
        gap: (current as i32).wrapping_sub(min as i32),
        is_optimal: optimal,
        explanation,
    }
}

proof fn lemma_keywords_min_grow(k: Seq<Seq<char>>, d: Seq<Seq<char>>, a: nat, b: nat)
    requires
        a <= b,
    ensures
        keywords_min(k, d, a) <= keywords_min(k, d, b),
    decreases b,
{
    if a < b {
        lemma_keywords_min_grow(k, d, a, (b - 1) as nat);
    }
}

proof fn lemma_code_pairs_grow(codes: Seq<Seq<char>>, d: Seq<Seq<char>>, a: nat, b: nat)
    requires
        a <= b,
    ensures
        code_pairs(codes, d, a) <= code_pairs(codes, d, b),
    decreases b,
{
    if a < b {
        lemma_code_pairs_grow(codes, d, a, (b - 1) as nat);
    }
}

proof fn lemma_class_density_grow(sessions: Seq<SessionInfo>, groups: Seq<(Seq<char>, Seq<usize>)>, a: nat, b: nat)
    requires
        a <= b,
    ensures
        class_density(sessions, groups, a) <= class_density(sessions, groups, b),
    decreases b,
{
    if a < b {
        lemma_class_density_grow(sessions, groups, a, (b - 1) as nat);
    }
}

/// Every entry is among the distinct entries.
pub(crate) proof fn lemma_distinct_has(s: Seq<Seq<char>>, end: nat)
    requires
        end <= s.len(),
    ensures
        forall|i: int| 0 <= i < end ==> distinct_upto(s, end).contains(#[trigger] s[i]),
    decreases end,
{
    if end > 0 {
        lemma_distinct_has(s, (end - 1) as nat);
        let prev = distinct_upto(s, (end - 1) as nat);
        let cur = distinct_upto(s, end);
        assert forall|i: int| 0 <= i < end implies cur.contains(#[trigger] s[i]) by {
            if i < end - 1 {
                assert(prev.contains(s[i]));
                let q = choose|q: int| 0 <= q < prev.len() && prev[q] == s[i];
                if !prev.contains(s[end - 1]) {
                    assert(cur[q] == s[i]);
                }
            } else if !prev.contains(s[end - 1]) {
                assert(cur[prev.len() as int] == s[i]);
            }
        }
    }
}

/// The largest count is the count of some entry (when there are entries).
pub(crate) proof fn lemma_max_count_attained(s: Seq<Seq<char>>, end: nat)
    requires
        0 < end <= s.len(),
    ensures
        exists|i: int| 0 <= i < end && count_in(s, #[trigger] s[i], s.len()) == max_count_upto(s, end),
    decreases end,
{
    let c = count_in(s, s[end - 1], s.len());
    if end == 1 {
        assert(max_count_upto(s, 0) == 0);
        assert(count_in(s, s[0], s.len()) == max_count_upto(s, 1));
    } else {
        lemma_max_count_attained(s, (end - 1) as nat);
        if c > max_count_upto(s, (end - 1) as nat) {
            assert(count_in(s, s[end - 1], s.len()) == max_count_upto(s, end));
        } else {
            let i = choose|i: int| 0 <= i < end - 1 && count_in(s, #[trigger] s[i], s.len()) == max_count_upto(s, (end - 1) as nat);
            assert(count_in(s, s[i], s.len()) == max_count_upto(s, end));
        }
    }
}

pub(crate) proof fn lemma_distinct_members(s: Seq<Seq<char>>, end: nat)
    requires
        end <= s.len(),
    ensures
        forall|i: int| 0 <= i < distinct_upto(s, end).len() ==> s.contains(#[trigger] distinct_upto(s, end)[i]),
    decreases end,
{
    if end > 0 {
        lemma_distinct_members(s, (end - 1) as nat);
        let prev = distinct_upto(s, (end - 1) as nat);
        let cur = distinct_upto(s, end);
        assert forall|i: int| 0 <= i < cur.len() implies s.contains(#[trigger] cur[i]) by {
            if i < prev.len() {
                assert(cur[i] == prev[i]);
            } else {
                assert(cur[i] == s[end - 1]);
            }
        }
    }
}

/// The bound of the speaker/organizer conflicts: one less than the most
/// sessions a person has in one period for every period beyond eight.
pub open spec fn person_min(load: nat) -> nat {
    if load <= 8 {
        0
    } else {
        (load - 8) as nat
    }
}

/// The bounds for the five conflict kinds, from the sessions and the
/// conflicts found:
/// - speaker/organizer: the most sessions one person has in one period,
///   less the 8 periods;
/// - personal-classification: for each keyword used more than 8 times, the
///   pairs among ceil(uses / 8) sessions;
/// - series room: the series beyond the 12 rooms;
/// - series back-to-back: the series of three or more parts beyond 2;
/// - classification: half of the pairs of sessions sharing a code within a
///   period, summed over codes and periods.
pub fn calculate_theoretical_bounds(sessions: &[SessionInfo], current_conflicts: &ConflictDetails) -> (r: TheoreticalBounds)
    requires
        keywords_min(
            keywords_upto(sessions@, sessions@.len()),
            distinct(keywords_upto(sessions@, sessions@.len())),
            distinct(keywords_upto(sessions@, sessions@.len())).len(),
        ) <= usize::MAX,
        class_density(sessions@, period_groups(sessions@), period_groups(sessions@).len()) <= usize::MAX,
    ensures
        ({
            let load = max_person_load(sessions@, period_groups(sessions@), period_groups(sessions@).len());
            let cur = current_conflicts.personal@.len();
            bound_is(
                r.speaker_organizer,
                person_min(load),
                cur,
                cur == person_min(load),
                "Max "@ + nat_digits(load) + " sessions/person, 8 slots available"@,
            )
        }),
        ({
            let k = keywords_upto(sessions@, sessions@.len());
            let min = keywords_min(k, distinct(k), distinct(k).len());
            let cur = current_conflicts.personal_classification@.len();
            let top = max_count_upto(k, k.len());
            &&& r.personal_classification.theoretical_min == min
            &&& r.personal_classification.current == cur
            &&& r.personal_classification.gap == (cur as i32).wrapping_sub(min as i32)
            &&& r.personal_classification.is_optimal == (cur == min)
            &&& exists|kw: Seq<char>| #[trigger] most_constrained(k, kw) && r.personal_classification.explanation@
                == "Most constrained keyword '"@ + kw + "' has "@ + nat_digits(top) + " sessions, 8 slots available"@
        }),
        ({
            let num = distinct(bases_upto(sessions@, sessions@.len())).len();
            let min: nat = if num > 12 { (num - 12) as nat } else { 0 };
            let cur = current_conflicts.series_room@.len();
            bound_is(
                r.series_room,
                min,
                cur,
                cur == min,
                nat_digits(num) + " series detected, 12 rooms available (pigeonhole principle)"@,
            )
        }),
        ({
            let b = bases_upto(sessions@, sessions@.len());
            let long = long_series(b, distinct(b), distinct(b).len());
            let min: nat = if long > 2 { (long - 2) as nat } else { 0 };
            let cur = current_conflicts.series_back_to_back@.len();
            bound_is(
                r.series_back_to_back,
                min,
                cur,
                cur <= min + 3,
                nat_digits(long) + " series with 3+ parts, 8 slots available for consecutive placement"@,
            )
        }),
        ({
            let density = class_density(sessions@, period_groups(sessions@), period_groups(sessions@).len());
            let min = density / 2;
            let cur = current_conflicts.classification@.len();
            bound_is(
                r.classification,
                min,
                cur,
                cur <= min * 2,
                "Estimated via classification density analysis (lower bound approximation)"@,
            )
        }),
{
    let ghost ss = sessions@;
    let ghost gs = period_groups(ss);
    let groups = group_by_period(sessions);
    proof {
        lemma_period_groups_valid(ss, ss.len());
    }
    // Speaker/organizer
    let mut load: usize = 0;
    let mut g: usize = 0;
    while g < groups.len()
        invariant
            ss == sessions@,
            gs == period_groups(ss),
            holds_groups(groups@, gs),
            forall|g: int, k: int| 0 <= g < gs.len() && 0 <= k < gs[g].1.len() ==> #[trigger] gs[g].1[k] < ss.len(),
            g <= gs.len(),
            load == max_person_load(ss, gs, g as nat),
        decreases groups.len() - g,
    {
        let names = slot_names_exec(sessions, &groups[g].1);
        let c = max_count_exec(&names);
        if c > load {
            load = c;
        }
        g = g + 1;
    }
    let so_min = if load <= 8 { 0 } else { load - 8 };
    let so_current = current_conflicts.personal.len();
    let t1 = concat("Max ", usize_text(load).as_str());
    let so_text = concat(t1.as_str(), " sessions/person, 8 slots available");
    let speaker_organizer = bound_info(so_min, so_current, so_current == so_min, so_text);
    // Personal-classification
    let keywords = keywords_exec(sessions);
    let distinct_keywords = distinct_strings(&keywords);
    let ghost kk = views(keywords@);
    let ghost dk = views(distinct_keywords@);
    let mut pc_sum: u128 = 0;
    let mut q: usize = 0;
    while q < distinct_keywords.len()
        invariant
            kk == views(keywords@),
            dk == views(distinct_keywords@),
            dk == distinct(kk),
            kk == keywords_upto(sessions@, sessions@.len()),
            keywords_min(kk, dk, dk.len()) <= usize::MAX,
            q <= dk.len(),
            pc_sum == keywords_min(kk, dk, q as nat),
        decreases distinct_keywords.len() - q,
    {
        proof {
            lemma_keywords_min_grow(kk, dk, (q + 1) as nat, dk.len());
        }
        let c = count_strings(&keywords, &distinct_keywords[q]);
        pc_sum = pc_sum + keyword_min_exec(c);
        q = q + 1;
    }
    let pc_min = pc_sum as usize;
    let top = max_count_exec(&keywords);
    let mut keyword = String::new();
    let mut found = false;
    let mut q: usize = 0;
    while q < distinct_keywords.len() && !found
        invariant
            kk == views(keywords@),
            dk == views(distinct_keywords@),
            q <= dk.len(),
            top == max_count_upto(kk, kk.len()),
            found ==> exists|i: int| 0 <= i < dk.len() && dk[i] == keyword@ && count_in(kk, keyword@, kk.len()) == top,
            !found ==> keyword@.len() == 0,
            !found ==> forall|i: int| 0 <= i < q ==> count_in(kk, #[trigger] dk[i], kk.len()) != top,
        decreases distinct_keywords.len() - q + if found { 0int } else { 1int },
    {
        let c = count_strings(&keywords, &distinct_keywords[q]);
        if c == top {
            keyword = distinct_keywords[q].clone();
            found = true;
            assert(dk[q as int] == keyword@);
        } else {
            q = q + 1;
        }
    }
    proof {
        if dk.len() > 0 {
            lemma_distinct_members(kk, kk.len());
            assert(kk.len() > 0) by {
                assert(kk.contains(dk[0]));
            }
            lemma_max_count_attained(kk, kk.len());
            let i = choose|i: int| 0 <= i < kk.len() && count_in(kk, #[trigger] kk[i], kk.len()) == max_count_upto(kk, kk.len());
            lemma_distinct_has(kk, kk.len());
            assert(dk.contains(kk[i]));
            let j = choose|j: int| 0 <= j < dk.len() && dk[j] == kk[i];
            if !found {
                assert(count_in(kk, dk[j], kk.len()) != top);
                assert(false);
            }
            assert(most_constrained(kk, keyword@));
        } else {
            assert(most_constrained(kk, keyword@));
        }
    }
    let pc_current = current_conflicts.personal_classification.len();
    let t2 = concat("Most constrained keyword '", keyword.as_str());
    let t3 = concat(t2.as_str(), "' has ");
    let t4 = concat(t3.as_str(), usize_text(top).as_str());
    let pc_text = concat(t4.as_str(), " sessions, 8 slots available");
    let personal_classification = BoundInfo {
        theoretical_min: pc_min,
        current: pc_current,
        gap: (pc_current as i32).wrapping_sub(pc_min as i32),
        is_optimal: pc_current == pc_min,
        explanation: pc_text,
    };
    // Series room
    let bases = bases_exec(sessions);
    let distinct_bases = distinct_strings(&bases);
    let num = distinct_bases.len();
    let sr_min = if num > 12 { num - 12 } else { 0 };
    let sr_current = current_conflicts.series_room.len();
    let sr_text = concat(usize_text(num).as_str(), " series detected, 12 rooms available (pigeonhole principle)");
    let series_room = bound_info(sr_min, sr_current, sr_current == sr_min, sr_text);
    // Series back-to-back
    let ghost bb = views(bases@);
    let ghost db = views(distinct_bases@);
    let mut long: usize = 0;
    let mut q: usize = 0;
    while q < distinct_bases.len()
        invariant
            bb == views(bases@),
            db == views(distinct_bases@),
            q <= db.len(),
            long == long_series(bb, db, q as nat),
            long <= q,
        decreases distinct_bases.len() - q,
    {
        if count_strings(&bases, &distinct_bases[q]) >= 3 {
            long = long + 1;
        }
        q = q + 1;
    }
    let bb_min = if long > 2 { long - 2 } else { 0 };
    let bb_current = current_conflicts.series_back_to_back.len();
    let bb_text = concat(usize_text(long).as_str(), " series with 3+ parts, 8 slots available for consecutive placement");
    let series_back_to_back = bound_info(bb_min, bb_current, (bb_current as u128) <= (bb_min as u128) + 3, bb_text);
    // Classification
    let mut density: u128 = 0;
    let mut g: usize = 0;
    while g < groups.len()
        invariant
            ss == sessions@,
            gs == period_groups(ss),
            holds_groups(groups@, gs),
            forall|g: int, k: int| 0 <= g < gs.len() && 0 <= k < gs[g].1.len() ==> #[trigger] gs[g].1[k] < ss.len(),
            class_density(ss, gs, gs.len()) <= usize::MAX,
            g <= gs.len(),
            density == class_density(ss, gs, g as nat),
        decreases groups.len() - g,
    {
        proof {
            lemma_class_density_grow(ss, gs, (g + 1) as nat, gs.len());
        }
        let codes = slot_codes_exec(sessions, &groups[g].1);
        let distinct_codes = distinct_strings(&codes);
        let ghost cc = views(codes@);
        let ghost dc = views(distinct_codes@);
        let mut q: usize = 0;
        let ghost start = density;
        while q < distinct_codes.len()
            invariant
                cc == views(codes@),
                dc == views(distinct_codes@),
                dc == distinct(cc),
                start + code_pairs(cc, dc, dc.len()) <= usize::MAX,
                q <= dc.len(),
                density == start + code_pairs(cc, dc, q as nat),
            decreases distinct_codes.len() - q,
        {
            proof {
                lemma_code_pairs_grow(cc, dc, (q + 1) as nat, dc.len());
            }
            let c = count_strings(&codes, &distinct_codes[q]);
            density = density + pairs_exec(c);
            q = q + 1;
        }
        g = g + 1;
    }
    let cl_min = (density / 2) as usize;
    let cl_current = current_conflicts.classification.len();
    let cl_text = "Estimated via classification density analysis (lower bound approximation)".to_owned();
    let classification = bound_info(cl_min, cl_current, (cl_current as u128) <= (cl_min as u128) * 2, cl_text);
    TheoreticalBounds { speaker_organizer, personal_classification, series_room, series_back_to_back, classification }
}

/// The largest count of an entry of `v`, and an entry with that count
/// (the first in order of first occurrence; the empty string when `v` is
/// empty).
pub(crate) fn most_frequent(v: &Vec<String>) -> (r: (usize, String))
    ensures
        r.0 == max_count_upto(views(v@), v@.len()),
        most_constrained(views(v@), r.1@),
{
    let ghost kk = views(v@);
    let d = distinct_strings(v);
    let ghost dk = views(d@);
    let top = max_count_exec(v);
    let mut keyword = String::new();
    let mut found = false;
    let mut q: usize = 0;
    while q < d.len() && !found
        invariant
            kk == views(v@),
            dk == views(d@),
            q <= dk.len(),
            top == max_count_upto(kk, kk.len()),
            found ==> exists|i: int| 0 <= i < dk.len() && dk[i] == keyword@ && count_in(kk, keyword@, kk.len()) == top,
            !found ==> keyword@.len() == 0,
            !found ==> forall|i: int| 0 <= i < q ==> count_in(kk, #[trigger] dk[i], kk.len()) != top,
        decreases d.len() - q + if found { 0int } else { 1int },
    {
        let c = count_strings(v, &d[q]);
        if c == top {
            keyword = d[q].clone();
            found = true;
            assert(dk[q as int] == keyword@);
        } else {
            q = q + 1;
        }
    }
    proof {
        if dk.len() > 0 {
            lemma_distinct_members(kk, kk.len());
            assert(kk.len() > 0) by {
                assert(kk.contains(dk[0]));
            }
            lemma_max_count_attained(kk, kk.len());
            let i = choose|i: int| 0 <= i < kk.len() && count_in(kk, #[trigger] kk[i], kk.len()) == max_count_upto(kk, kk.len());
            lemma_distinct_has(kk, kk.len());
            assert(dk.contains(kk[i]));
            let j = choose|j: int| 0 <= j < dk.len() && dk[j] == kk[i];
            if !found {
                assert(count_in(kk, dk[j], kk.len()) != top);
                assert(false);
            }
        }
    }
    (top, keyword)
}


// ===========================================================================
// Titles in reports
// ===========================================================================

/// Where a long title is cut: three bytes before `max_len` (at 0 when
/// `max_len` is below 3).
pub open spec fn cut_point(max_len: usize) -> int {
    if max_len >= 3 {
        max_len - 3
    } else {
        0
    }
}

/// A title shortened for a report: unchanged when it takes at most
/// `max_len` bytes, else its first `max_len - 3` bytes followed by `...`.
/// The cut must fall between characters.
pub fn truncate_title(title: &str, max_len: usize) -> (r: String)
    requires
        title.len() <= max_len || vstd::utf8::is_char_boundary(title.spec_bytes(), cut_point(max_len)),
    ensures
        title.len() <= max_len ==> r@ == title@,
        title.len() > max_len ==> r@ == vstd::utf8::decode_utf8(title.spec_bytes().take(cut_point(max_len)))
            + "..."@,
{
    if title.len() <= max_len {
        return title.to_owned();
    }
    let k: usize = if max_len >= 3 {
        max_len - 3
    } else {
        0
    };
    let (head, _rest) = title.split_at(k);
    proof {
        vstd::utf8::encode_utf8_decode_utf8(head@);
        assert(head.spec_bytes() =~= title.spec_bytes().take(cut_point(max_len)));
    }
    concat(head, "...")
}

proof fn lemma_count_in_multiset(s: Seq<Seq<char>>, x: Seq<char>, end: nat)
    requires
        end <= s.len(),
    ensures
        count_in(s, x, end) == s.take(end as int).to_multiset().count(x),
    decreases end,
{
    broadcast use vstd::seq_lib::to_multiset_build, vstd::seq_lib::to_multiset_contains, vstd::multiset::group_multiset_axioms;

    if end == 0 {
        assert(s.take(0) =~= Seq::<Seq<char>>::empty());
        assert(!s.take(0).contains(x));
    } else {
        lemma_count_in_multiset(s, x, (end - 1) as nat);
        assert(s.take(end as int) =~= s.take(end - 1).push(s[end - 1]));
    }
}

proof fn lemma_distinct_unique(s: Seq<Seq<char>>, end: nat)
    requires
        end <= s.len(),
    ensures
        forall|i: int, j: int|
            0 <= i < j < distinct_upto(s, end).len() ==> #[trigger] distinct_upto(s, end)[i] != #[trigger] distinct_upto(s, end)[j],
    decreases end,
{
    if end > 0 {
        lemma_distinct_unique(s, (end - 1) as nat);
        let prev = distinct_upto(s, (end - 1) as nat);
        let cur = distinct_upto(s, end);
        assert forall|i: int, j: int| 0 <= i < j < cur.len() implies #[trigger] cur[i] != #[trigger] cur[j] by {
            if j < prev.len() {
                assert(cur[i] == prev[i] && cur[j] == prev[j]);
            } else {
                assert(cur[i] == prev[i]);
                assert(cur[j] == s[end - 1]);
                assert(!prev.contains(s[end - 1]));
                assert(prev[i] == cur[i]);
            }
        }
    }
}

/// The bases among the first `end` of `d` that occur at least three times
/// in `b`.
spec fn long_bases(b: Seq<Seq<char>>, d: Seq<Seq<char>>, end: nat) -> Set<Seq<char>> {
    Set::new(|x: Seq<char>| exists|k: int| 0 <= k < end && d[k] == x && b.to_multiset().count(x) >= 3)
}

proof fn lemma_long_bases(b: Seq<Seq<char>>, d: Seq<Seq<char>>, end: nat)
    requires
        end <= d.len(),
        forall|i: int, j: int| 0 <= i < j < d.len() ==> #[trigger] d[i] != #[trigger] d[j],
    ensures
        long_bases(b, d, end).finite(),
        long_bases(b, d, end).len() == long_series(b, d, end),
    decreases end,
{
    if end == 0 {
        assert(long_bases(b, d, end) =~= Set::<Seq<char>>::empty());
    } else {
        lemma_long_bases(b, d, (end - 1) as nat);
        let prev = long_bases(b, d, (end - 1) as nat);
        let x = d[end - 1];
        lemma_count_in_multiset(b, x, b.len());
        assert(b.take(b.len() as int) =~= b);
        if b.to_multiset().count(x) >= 3 {
            assert(long_bases(b, d, end) =~= prev.insert(x));
            assert(!prev.contains(x)) by {
                if prev.contains(x) {
                    let k = choose|k: int| 0 <= k < end - 1 && d[k] == x && b.to_multiset().count(x) >= 3;
                    assert(d[k] != d[end - 1]);
                }
            }
        } else {
            assert(long_bases(b, d, end) =~= prev);
        }
    }
}

/// The number of long series in the bounds report is the number of distinct
/// series bases that occur at least three times: a base with three or more
/// sessions counts once, any other base not at all.
pub proof fn law_long_series_counts_bases_with_three_sessions(b: Seq<Seq<char>>)
    ensures
        Set::new(|x: Seq<char>| b.contains(x) && b.to_multiset().count(x) >= 3).finite(),
        long_series(b, distinct(b), distinct(b).len()) == Set::new(
            |x: Seq<char>| b.contains(x) && b.to_multiset().count(x) >= 3,
        ).len(),
{
    let d = distinct(b);
    lemma_distinct_unique(b, b.len());
    lemma_distinct_has(b, b.len());
    lemma_distinct_members(b, b.len());
    lemma_long_bases(b, d, d.len());
    assert(long_bases(b, d, d.len()) =~= Set::new(|x: Seq<char>| b.contains(x) && b.to_multiset().count(x) >= 3)) by {
        assert forall|x: Seq<char>| b.contains(x) && b.to_multiset().count(x) >= 3 implies long_bases(b, d, d.len()).contains(x) by {
            let i = choose|i: int| 0 <= i < b.len() && b[i] == x;
            assert(d.contains(b[i]));
        }
        assert forall|x: Seq<char>| long_bases(b, d, d.len()).contains(x) implies b.contains(x) by {
            let k = choose|k: int| 0 <= k < d.len() && d[k] == x && b.to_multiset().count(x) >= 3;
            assert(b.contains(d[k]));
        }
    }
}

} // verus!
