//! Properties that hold across the conflict tests, the rearrangements and
//! the sorting done by the engine.
use vstd::prelude::*;
use vstd::relations::injective_on;
use vstd::set_lib::{lemma_int_range, lemma_len_subset, lemma_map_size, set_int_range};
use crate::conflict_detection::{
    period_order, same_series, series_back_to_back_clash, series_order_violation, series_room_clash,
};
use crate::counts::{
    conflicts_of, counts_match, entry_back_clash, flat, lemma_clash_counted, ms_clash, pair_clash, pairs_upto, row_pairs,
};
use crate::conflict_detection::{normalize_spec, notes_clash};
use crate::text::{has_substring, occurs_at};
use crate::counts::period_name;
use crate::analysis::{count_in, lemma_max_count_attained, max_count_upto, normalized_names};
use crate::feasibility::{notes_keywords, people_names, personal_classification_outcome, speaker_organizer_outcome};
use crate::model::{ConflictCounts, ConflictType, Minisymposium, Solution, count_of, fitness_of};
use crate::moves::{swap_at, valid_pos};
use crate::optimize::{count_ins_point, rank_ins_point, sort_by_count, sort_by_rank};

verus! {

// ===========================================================================
// Conflict tests
// ===========================================================================

/// Each pairwise conflict test gives the same answer whichever of the two
/// minisymposia comes first.
pub proof fn law_conflict_tests_symmetric(kind: ConflictType, a: Minisymposium, b: Minisymposium)
    ensures
        ms_clash(kind, a, b) == ms_clash(kind, b, a),
{
    match kind {
        ConflictType::Classification => {
            if ms_clash(kind, a, b) {
                let (i, j) = choose|i: int, j: int|
                    0 <= i < a.classification@.len() && 0 <= j < b.classification@.len()
                        && #[trigger] a.classification@[i] == #[trigger] b.classification@[j];
                assert(b.classification@[j] == a.classification@[i]);
            }
            if ms_clash(kind, b, a) {
                let (i, j) = choose|i: int, j: int|
                    0 <= i < b.classification@.len() && 0 <= j < a.classification@.len()
                        && #[trigger] b.classification@[i] == #[trigger] a.classification@[j];
                assert(a.classification@[j] == b.classification@[i]);
            }
        },
        ConflictType::SpeakerOrganizer => {
            let p = a.speakers@ + a.organizers@;
            let q = b.speakers@ + b.organizers@;
            if ms_clash(kind, a, b) {
                let (i, j) = choose|i: int, j: int|
                    0 <= i < p.len() && 0 <= j < q.len() && crate::conflict_detection::normalize_spec(
                        #[trigger] p[i]@,
                    ).len() > 0 && crate::conflict_detection::normalize_spec(p[i]@)
                        == crate::conflict_detection::normalize_spec(#[trigger] q[j]@);
                assert(q[j] == q[j] && p[i] == p[i]);
            }
            if ms_clash(kind, b, a) {
                let (i, j) = choose|i: int, j: int|
                    0 <= i < q.len() && 0 <= j < p.len() && crate::conflict_detection::normalize_spec(
                        #[trigger] q[i]@,
                    ).len() > 0 && crate::conflict_detection::normalize_spec(q[i]@)
                        == crate::conflict_detection::normalize_spec(#[trigger] p[j]@);
                assert(q[i] == q[i] && p[j] == p[j]);
            }
        },
        _ => {},
    }
}

/// The series tests are symmetric: exchanging the two sessions (title, room
/// and period together) gives the same answer.
pub proof fn law_series_tests_symmetric(
    title1: Seq<char>,
    room1: Seq<char>,
    period1: Seq<char>,
    title2: Seq<char>,
    room2: Seq<char>,
    period2: Seq<char>,
)
    ensures
        same_series(title1, title2) == same_series(title2, title1),
        series_room_clash(title1, room1, title2, room2) == series_room_clash(title2, room2, title1, room1),
        series_back_to_back_clash(title1, period1, title2, period2) == series_back_to_back_clash(
            title2,
            period2,
            title1,
            period1,
        ),
        series_order_violation(title1, period1, title2, period2) == series_order_violation(
            title2,
            period2,
            title1,
            period1,
        ),
{
}

/// A series conflict of any kind is only ever found between two parts of the
/// same series.
pub proof fn law_series_conflicts_need_one_series(
    title1: Seq<char>,
    room1: Seq<char>,
    period1: Seq<char>,
    title2: Seq<char>,
    room2: Seq<char>,
    period2: Seq<char>,
)
    ensures
        series_room_clash(title1, room1, title2, room2) ==> same_series(title1, title2),
        series_back_to_back_clash(title1, period1, title2, period2) ==> same_series(title1, title2),
        series_order_violation(title1, period1, title2, period2) ==> same_series(title1, title2),
{
}

/// Two parts held in the same period are never out of chronological order,
/// and a session never conflicts with itself in any series test.
pub proof fn law_series_tests_irreflexive(title1: Seq<char>, title2: Seq<char>, room: Seq<char>, period: Seq<char>)
    ensures
        !series_order_violation(title1, period, title2, period),
        !series_room_clash(title1, room, title1, room),
        !series_back_to_back_clash(title1, period, title1, period),
{
}

/// A period is ordered 0 to 7 (Tuesday first period to Friday second
/// period), or 999 when it names none of them.
pub proof fn law_period_order_range(period: Seq<char>)
    ensures
        period_order(period) <= 7 || period_order(period) == 999,
{
}

// ===========================================================================
// Rearrangements
// ===========================================================================

/// Exchanging the same two entries twice gives the schedule back.
pub proof fn law_swap_twice_restores(sched: Seq<Seq<usize>>, p1: (usize, usize), p2: (usize, usize))
    requires
        valid_pos(sched, p1),
        valid_pos(sched, p2),
    ensures
        swap_at(swap_at(sched, p1, p2), p1, p2) == sched,
{
    let once = swap_at(sched, p1, p2);
    let twice = swap_at(once, p1, p2);
    assert forall|i: int| 0 <= i < sched.len() implies #[trigger] twice[i] =~= sched[i] by {}
    assert(twice =~= sched);
}

// ===========================================================================
// Scores
// ===========================================================================

/// The weighted score never falls when no count falls, and it is zero for
/// a conflict-free schedule.
pub proof fn law_fitness_monotone(c1: ConflictCounts, c2: ConflictCounts)
    ensures
        (forall|t: ConflictType| #[trigger] count_of(c1, t) <= count_of(c2, t)) ==> fitness_of(c1) <= fitness_of(c2),
        (forall|t: ConflictType| #[trigger] count_of(c1, t) == 0) ==> fitness_of(c1) == 0,
{
    if forall|t: ConflictType| #[trigger] count_of(c1, t) <= count_of(c2, t) {
        assert(count_of(c1, ConflictType::Classification) <= count_of(c2, ConflictType::Classification));
        assert(count_of(c1, ConflictType::SpeakerOrganizer) <= count_of(c2, ConflictType::SpeakerOrganizer));
        assert(count_of(c1, ConflictType::PersonalClassification) <= count_of(
            c2,
            ConflictType::PersonalClassification,
        ));
        assert(count_of(c1, ConflictType::SeriesSameRoom) <= count_of(c2, ConflictType::SeriesSameRoom));
        assert(count_of(c1, ConflictType::SeriesBackToBack) <= count_of(c2, ConflictType::SeriesBackToBack));
    }
    if forall|t: ConflictType| #[trigger] count_of(c1, t) == 0 {
        assert(count_of(c1, ConflictType::Classification) == 0);
        assert(count_of(c1, ConflictType::SpeakerOrganizer) == 0);
        assert(count_of(c1, ConflictType::PersonalClassification) == 0);
        assert(count_of(c1, ConflictType::SeriesSameRoom) == 0);
        assert(count_of(c1, ConflictType::SeriesBackToBack) == 0);
    }
}

// ===========================================================================
// Sorting by rank and by count
// ===========================================================================

/// Entries before the insertion point have a rank no larger than `e`'s,
/// entries from it on a larger one (for entries already in rank order).
proof fn lemma_rank_ins_point(t: Seq<(ConflictType, u8)>, e: (ConflictType, u8))
    requires
        forall|i: int, j: int| 0 <= i < j < t.len() ==> t[i].1 <= t[j].1,
    ensures
        0 <= rank_ins_point(t, e) <= t.len(),
        forall|i: int| 0 <= i < rank_ins_point(t, e) ==> #[trigger] t[i].1 <= e.1,
        forall|i: int| rank_ins_point(t, e) <= i < t.len() ==> #[trigger] t[i].1 > e.1,
    decreases t.len(),
{
    if t.len() > 0 {
        let u = t.drop_last();
        lemma_rank_ins_point(u, e);
        if t.last().1 <= e.1 {
            assert forall|i: int| 0 <= i < t.len() implies #[trigger] t[i].1 <= e.1 by {
                if i < t.len() - 1 {
                    assert(t[i].1 <= t[t.len() - 1].1);
                }
            }
        } else {
            assert forall|i: int| 0 <= i < rank_ins_point(u, e) implies #[trigger] t[i].1 <= e.1 by {
                assert(t[i] == u[i]);
            }
            assert forall|i: int| rank_ins_point(u, e) <= i < t.len() implies #[trigger] t[i].1 > e.1 by {
                if i < t.len() - 1 {
                    assert(t[i] == u[i]);
                }
            }
        }
    }
}

/// Sorting by rank puts the entries in rank order and keeps their number.
pub proof fn law_sort_by_rank_ordered(s: Seq<(ConflictType, u8)>)
    ensures
        sort_by_rank(s).len() == s.len(),
        forall|i: int, j: int|
            0 <= i < j < s.len() ==> #[trigger] sort_by_rank(s)[i].1 <= #[trigger] sort_by_rank(s)[j].1,
    decreases s.len(),
{
    if s.len() > 0 {
        let t = sort_by_rank(s.drop_last());
        law_sort_by_rank_ordered(s.drop_last());
        let e = s.last();
        lemma_rank_ins_point(t, e);
        let p = rank_ins_point(t, e);
        let u = t.insert(p, e);
        assert(u == sort_by_rank(s));
        assert forall|i: int, j: int| 0 <= i < j < u.len() implies #[trigger] u[i].1 <= #[trigger] u[j].1 by {
            if j < p {
                assert(u[i] == t[i] && u[j] == t[j]);
            } else if j == p {
                assert(u[i] == t[i]);
            } else if i < p {
                assert(u[i] == t[i] && u[j] == t[j - 1]);
            } else if i == p {
                assert(u[j] == t[j - 1]);
            } else {
                assert(u[i] == t[i - 1] && u[j] == t[j - 1]);
            }
        }
    }
}

/// Entries before the insertion point have a count no larger than `e`'s,
/// entries from it on a larger one (for solutions already in count order).
proof fn lemma_count_ins_point(t: Seq<Solution>, e: Solution, kind: ConflictType)
    requires
        forall|i: int, j: int|
            0 <= i < j < t.len() ==> count_of(t[i].conflicts, kind) <= count_of(t[j].conflicts, kind),
    ensures
        0 <= count_ins_point(t, e, kind) <= t.len(),
        forall|i: int|
            0 <= i < count_ins_point(t, e, kind) ==> count_of(#[trigger] t[i].conflicts, kind) <= count_of(
                e.conflicts,
                kind,
            ),
        forall|i: int|
            count_ins_point(t, e, kind) <= i < t.len() ==> count_of(#[trigger] t[i].conflicts, kind) > count_of(
                e.conflicts,
                kind,
            ),
    decreases t.len(),
{
    if t.len() > 0 {
        let u = t.drop_last();
        lemma_count_ins_point(u, e, kind);
        if count_of(t.last().conflicts, kind) <= count_of(e.conflicts, kind) {
            assert forall|i: int| 0 <= i < t.len() implies count_of(#[trigger] t[i].conflicts, kind) <= count_of(
                e.conflicts,
                kind,
            ) by {
                if i < t.len() - 1 {
                    assert(count_of(t[i].conflicts, kind) <= count_of(t[t.len() - 1].conflicts, kind));
                }
            }
        } else {
            assert forall|i: int| 0 <= i < count_ins_point(u, e, kind) implies count_of(
                #[trigger] t[i].conflicts,
                kind,
            ) <= count_of(e.conflicts, kind) by {
                assert(t[i] == u[i]);
            }
            assert forall|i: int| count_ins_point(u, e, kind) <= i < t.len() implies count_of(
                #[trigger] t[i].conflicts,
                kind,
            ) > count_of(e.conflicts, kind) by {
                if i < t.len() - 1 {
                    assert(t[i] == u[i]);
                }
            }
        }
    }
}

/// Sorting solutions by their count of `kind` puts them in count order and
/// keeps their number; so the solutions that pruning keeps have counts no
/// larger than those it drops.
pub proof fn law_sort_by_count_ordered(s: Seq<Solution>, kind: ConflictType)
    ensures
        sort_by_count(s, kind).len() == s.len(),
        forall|i: int, j: int|
            0 <= i < j < s.len() ==> count_of(#[trigger] sort_by_count(s, kind)[i].conflicts, kind) <= count_of(
                #[trigger] sort_by_count(s, kind)[j].conflicts,
                kind,
            ),
    decreases s.len(),
{
    if s.len() > 0 {
        let t = sort_by_count(s.drop_last(), kind);
        law_sort_by_count_ordered(s.drop_last(), kind);
        let e = s.last();
        lemma_count_ins_point(t, e, kind);
        let p = count_ins_point(t, e, kind);
        let u = t.insert(p, e);
        assert(u == sort_by_count(s, kind));
        assert forall|i: int, j: int| 0 <= i < j < u.len() implies count_of(#[trigger] u[i].conflicts, kind)
            <= count_of(#[trigger] u[j].conflicts, kind) by {
            if j < p {
                assert(u[i] == t[i] && u[j] == t[j]);
            } else if j == p {
                assert(u[i] == t[i]);
            } else if i < p {
                assert(u[i] == t[i] && u[j] == t[j - 1]);
            } else if i == p {
                assert(u[j] == t[j - 1]);
            } else {
                assert(u[i] == t[i - 1] && u[j] == t[j - 1]);
            }
        }
    }
}


// ===========================================================================
// Crowded groups
// ===========================================================================

/// Minisymposium `x` is held in slot `s` of `sched`.
pub open spec fn held_in(sched: Seq<Seq<usize>>, x: usize, s: int) -> bool {
    0 <= s < sched.len() && exists|k: int| 0 <= k < sched[s].len() && sched[s][k] == x
}

/// `m` lists a speaker or organizer whose normalised name is `name`.
pub open spec fn lists_person(m: Minisymposium, name: Seq<char>) -> bool {
    exists|i: int|
        0 <= i < (m.speakers@ + m.organizers@).len() && normalize_spec(#[trigger] (m.speakers@ + m.organizers@)[i]@)
            == name
}

/// More minisymposia than slots, each held somewhere: two of them share a
/// slot, at different positions.
proof fn lemma_two_share_a_slot(sched: Seq<Seq<usize>>, group: Set<usize>) -> (r: (int, int, int))
    requires
        group.finite(),
        group.len() > sched.len(),
        forall|x: usize| #[trigger] group.contains(x) ==> exists|s: int| held_in(sched, x, s),
    ensures
        0 <= r.0 < sched.len(),
        0 <= r.1 < sched[r.0].len(),
        0 <= r.2 < sched[r.0].len(),
        r.1 != r.2,
        group.contains(sched[r.0][r.1]),
        group.contains(sched[r.0][r.2]),
{
    let f = |x: usize| choose|s: int| held_in(sched, x, s);
    if injective_on(f, group) {
        let img = group.map(f);
        lemma_map_size(group, img, f);
        assert(img.subset_of(set_int_range(0, sched.len() as int))) by {
            assert forall|s: int| #[trigger] img.contains(s) implies set_int_range(0, sched.len() as int).contains(s) by {
                let x = choose|x: usize| group.contains(x) && f(x) == s;
                assert(exists|t: int| held_in(sched, x, t));
            }
        }
        lemma_int_range(0, sched.len() as int);
        lemma_len_subset(img, set_int_range(0, sched.len() as int));
        assert(false);
    }
    let (x, y) = choose|x: usize, y: usize| group.contains(x) && group.contains(y) && f(x) == f(y) && x != y;
    assert(exists|t: int| held_in(sched, x, t));
    assert(exists|t: int| held_in(sched, y, t));
    let s = f(x);
    let kx = choose|k: int| 0 <= k < sched[s].len() && sched[s][k] == x;
    let ky = choose|k: int| 0 <= k < sched[s].len() && sched[s][k] == y;
    (s, kx, ky)
}

/// A person listed on more minisymposia than a schedule has time slots:
/// a schedule that holds all of those minisymposia has a speaker/organizer
/// conflict (the speaker/organizer check calls such inputs impossible).
pub proof fn law_overbooked_person_conflicts(
    ms: Seq<Minisymposium>,
    sched: Seq<Seq<usize>>,
    name: Seq<char>,
    group: Set<usize>,
)
    requires
        name.len() > 0,
        group.finite(),
        group.len() > sched.len(),
        forall|x: usize| #[trigger] group.contains(x) ==> x < ms.len() && lists_person(ms[x as int], name),
        forall|x: usize| #[trigger] group.contains(x) ==> exists|s: int| held_in(sched, x, s),
    ensures
        conflicts_of(ConflictType::SpeakerOrganizer, ms, sched) > 0,
{
    let (s, k1, k2) = lemma_two_share_a_slot(sched, group);
    let (a, b) = if k1 < k2 { (k1, k2) } else { (k2, k1) };
    let x = sched[s][a];
    let y = sched[s][b];
    assert(group.contains(x) && group.contains(y));
    let px = ms[x as int].speakers@ + ms[x as int].organizers@;
    let py = ms[y as int].speakers@ + ms[y as int].organizers@;
    let i = choose|i: int| 0 <= i < px.len() && normalize_spec(#[trigger] px[i]@) == name;
    let j = choose|j: int| 0 <= j < py.len() && normalize_spec(#[trigger] py[j]@) == name;
    assert(normalize_spec(px[i]@) == normalize_spec(py[j]@));
    assert(pair_clash(ConflictType::SpeakerOrganizer, ms, x, y));
    lemma_clash_counted(ConflictType::SpeakerOrganizer, ms, sched, s, a, b);
}

/// A classification code on more minisymposia than a schedule has time
/// slots: a schedule that holds all of them has a classification conflict.
pub proof fn law_crowded_code_conflicts(ms: Seq<Minisymposium>, sched: Seq<Seq<usize>>, code: i32, group: Set<usize>)
    requires
        group.finite(),
        group.len() > sched.len(),
        forall|x: usize| #[trigger] group.contains(x) ==> x < ms.len() && ms[x as int].classification@.contains(code),
        forall|x: usize| #[trigger] group.contains(x) ==> exists|s: int| held_in(sched, x, s),
    ensures
        conflicts_of(ConflictType::Classification, ms, sched) > 0,
{
    let (s, k1, k2) = lemma_two_share_a_slot(sched, group);
    let (a, b) = if k1 < k2 { (k1, k2) } else { (k2, k1) };
    let x = sched[s][a];
    let y = sched[s][b];
    assert(group.contains(x) && group.contains(y));
    let cx = ms[x as int].classification@;
    let cy = ms[y as int].classification@;
    let i = choose|i: int| 0 <= i < cx.len() && cx[i] == code;
    let j = choose|j: int| 0 <= j < cy.len() && cy[j] == code;
    assert(cx[i] == cy[j]);
    assert(pair_clash(ConflictType::Classification, ms, x, y));
    lemma_clash_counted(ConflictType::Classification, ms, sched, s, a, b);
}

/// A notes keyword (non-empty after normalising, without the word
/// `notes`) on more minisymposia than a schedule has time slots: a
/// schedule that holds all of them has a personal-classification conflict.
pub proof fn law_crowded_keyword_conflicts(
    ms: Seq<Minisymposium>,
    sched: Seq<Seq<usize>>,
    keyword: Seq<char>,
    group: Set<usize>,
)
    requires
        keyword.len() > 0,
        !has_substring(keyword, "notes"@),
        group.finite(),
        group.len() > sched.len(),
        forall|x: usize| #[trigger] group.contains(x) ==> x < ms.len() && normalize_spec(ms[x as int].notes@) == keyword,
        forall|x: usize| #[trigger] group.contains(x) ==> exists|s: int| held_in(sched, x, s),
    ensures
        conflicts_of(ConflictType::PersonalClassification, ms, sched) > 0,
{
    let (s, k1, k2) = lemma_two_share_a_slot(sched, group);
    let (a, b) = if k1 < k2 { (k1, k2) } else { (k2, k1) };
    let x = sched[s][a];
    let y = sched[s][b];
    assert(group.contains(x) && group.contains(y));
    assert(notes_clash(ms[x as int].notes@, ms[y as int].notes@));
    assert(pair_clash(ConflictType::PersonalClassification, ms, x, y));
    lemma_clash_counted(ConflictType::PersonalClassification, ms, sched, s, a, b);
}


/// Every minisymposium below `n` is held somewhere in `sched`.
pub open spec fn holds_all(sched: Seq<Seq<usize>>, n: nat) -> bool {
    forall|x: usize| (x as int) < n ==> #[trigger] is_held(sched, x)
}

/// Minisymposium `x` is held in some slot of `sched`.
pub open spec fn is_held(sched: Seq<Seq<usize>>, x: usize) -> bool {
    exists|s: int| held_in(sched, x, s)
}

/// The minisymposia below `end` whose notes keyword is `kw`.
pub open spec fn keyword_group(ms: Seq<Minisymposium>, kw: Seq<char>, end: nat) -> Set<usize> {
    Set::new(|i: usize| (i as int) < end && normalize_spec(ms[i as int].notes@) == kw)
}

pub(crate) proof fn lemma_count_in_push(s: Seq<Seq<char>>, x: Seq<char>, v: Seq<char>, end: nat)
    requires
        end <= s.len(),
    ensures
        count_in(s.push(x), v, end) == count_in(s, v, end),
    decreases end,
{
    if end > 0 {
        lemma_count_in_push(s, x, v, (end - 1) as nat);
        assert(s.push(x)[end - 1] == s[end - 1]);
    }
}

/// The keywords of the notes of the first `end` minisymposia are
/// non-empty and free of the word `notes`, and a keyword occurs among them
/// once per minisymposium that has it.
proof fn lemma_keyword_count(ms: Seq<Minisymposium>, kw: Seq<char>, end: nat)
    requires
        end <= ms.len(),
        end <= usize::MAX,
    ensures
        forall|k: int|
            0 <= k < notes_keywords(ms, end).len() ==> (#[trigger] notes_keywords(ms, end)[k]).len() > 0
                && !has_substring(notes_keywords(ms, end)[k], "notes"@),
        kw.len() > 0 && !has_substring(kw, "notes"@) ==> {
            &&& keyword_group(ms, kw, end).finite()
            &&& keyword_group(ms, kw, end).len() == count_in(
                notes_keywords(ms, end),
                kw,
                notes_keywords(ms, end).len(),
            )
        },
    decreases end,
{
    if end == 0 {
        assert(keyword_group(ms, kw, 0) =~= Set::empty());
    } else {
        let e = (end - 1) as nat;
        lemma_keyword_count(ms, kw, e);
        let prev = notes_keywords(ms, e);
        let n = normalize_spec(ms[e as int].notes@);
        if n.len() > 0 && !has_substring(n, "notes"@) {
            lemma_count_in_push(prev, n, kw, prev.len());
            assert(notes_keywords(ms, end) == prev.push(n));
            assert(prev.push(n)[prev.len() as int] == n);
            assert forall|k: int| 0 <= k < notes_keywords(ms, end).len() implies (#[trigger] notes_keywords(
                ms,
                end,
            )[k]).len() > 0 && !has_substring(notes_keywords(ms, end)[k], "notes"@) by {
                if k < prev.len() {
                    assert(notes_keywords(ms, end)[k] == prev[k]);
                }
            }
        }
        if kw.len() > 0 && !has_substring(kw, "notes"@) {
            let g = keyword_group(ms, kw, e);
            let i = e as usize;
            assert(i as int == e);
            if n == kw {
                assert(keyword_group(ms, kw, end) =~= g.insert(i));
                assert(!g.contains(i));
            } else {
                assert(keyword_group(ms, kw, end) =~= g);
            }
        }
    }
}

/// When the personal-classification check reports more minisymposia with
/// one notes keyword than the slots and rooms can hold, no schedule of that
/// many slots and rooms that holds every minisymposium is free of
/// personal-classification conflicts.
pub proof fn law_keyword_check_sound(
    ms: Seq<Minisymposium>,
    slots: nat,
    rooms: nat,
    reason: Seq<char>,
    sched: Seq<Seq<usize>>,
)
    requires
        ms.len() <= usize::MAX,
        personal_classification_outcome(ms, slots, rooms, false, reason),
        sched.len() <= slots,
        forall|s: int| 0 <= s < sched.len() ==> #[trigger] sched[s].len() <= rooms,
        holds_all(sched, ms.len()),
    ensures
        conflicts_of(ConflictType::PersonalClassification, ms, sched) > 0,
{
    let k = notes_keywords(ms, ms.len());
    let top = max_count_upto(k, k.len());
    assert(top > slots * rooms);
    lemma_max_count_attained(k, k.len());
    let i = choose|i: int| 0 <= i < k.len() && count_in(k, #[trigger] k[i], k.len()) == max_count_upto(k, k.len());
    let kw = k[i];
    lemma_keyword_count(ms, kw, ms.len());
    let group = keyword_group(ms, kw, ms.len());
    assert(group.len() == top);
    assert forall|x: usize| #[trigger] group.contains(x) implies exists|s: int| held_in(sched, x, s) by {
        assert(is_held(sched, x));
    }
    if rooms == 0 {
        let x = group.choose();
        assert(group.contains(x));
        let s = choose|s: int| held_in(sched, x, s);
        assert(sched[s].len() > 0);
        assert(false);
    } else {
        assert(slots * rooms >= slots) by (nonlinear_arith)
            requires
                rooms >= 1,
        ;
        law_crowded_keyword_conflicts(ms, sched, kw, group);
    }
}


/// No two speakers or organizers of `m` have the same non-empty normalised
/// name.
pub open spec fn lists_once(m: Minisymposium) -> bool {
    let p = m.speakers@ + m.organizers@;
    forall|i: int, j: int|
        0 <= i < j < p.len() && normalize_spec(#[trigger] p[i]@).len() > 0 ==> normalize_spec(p[i]@)
            != normalize_spec(#[trigger] p[j]@)
}

/// The minisymposia below `end` that list a person named `name`.
pub open spec fn person_group(ms: Seq<Minisymposium>, name: Seq<char>, end: nat) -> Set<usize> {
    Set::new(|i: usize| (i as int) < end && lists_person(ms[i as int], name))
}

pub(crate) proof fn lemma_count_in_concat(a: Seq<Seq<char>>, b: Seq<Seq<char>>, v: Seq<char>)
    ensures
        count_in(a + b, v, (a + b).len()) == count_in(a, v, a.len()) + count_in(b, v, b.len()),
    decreases b.len(),
{
    if b.len() == 0 {
        assert(a + b =~= a);
    } else {
        let b1 = b.drop_last();
        let x = b.last();
        lemma_count_in_concat(a, b1, v);
        assert(a + b =~= (a + b1).push(x));
        assert(b =~= b1.push(x));
        lemma_count_in_push(a + b1, x, v, (a + b1).len());
        lemma_count_in_push(b1, x, v, b1.len());
        assert((a + b1).push(x)[(a + b1).len() as int] == x);
        assert(b1.push(x)[b1.len() as int] == x);
    }
}

/// The names among the first `end` of `p` that normalise to `name`, when
/// `p` lists each name once: one exactly when some does.
pub(crate) proof fn lemma_name_count(p: Seq<String>, name: Seq<char>, end: nat)
    requires
        end <= p.len(),
        name.len() > 0,
        forall|i: int, j: int|
            0 <= i < j < p.len() && normalize_spec(#[trigger] p[i]@).len() > 0 ==> normalize_spec(p[i]@)
                != normalize_spec(#[trigger] p[j]@),
    ensures
        count_in(normalized_names(p, end), name, normalized_names(p, end).len()) == if exists|i: int|
            0 <= i < end && normalize_spec(#[trigger] p[i]@) == name {
            1nat
        } else {
            0nat
        },
    decreases end,
{
    if end > 0 {
        let e = (end - 1) as nat;
        lemma_name_count(p, name, e);
        let prev = normalized_names(p, e);
        let n = normalize_spec(p[e as int]@);
        if n.len() > 0 {
            lemma_count_in_push(prev, n, name, prev.len());
            assert(prev.push(n)[prev.len() as int] == n);
        }
        if n == name {
            assert(normalize_spec(p[e as int]@) == name);
            if exists|i: int| 0 <= i < e && normalize_spec(#[trigger] p[i]@) == name {
                let i = choose|i: int| 0 <= i < e && normalize_spec(#[trigger] p[i]@) == name;
                assert(normalize_spec(p[i]@) != normalize_spec(p[e as int]@));
            }
        } else {
            if exists|i: int| 0 <= i < end && normalize_spec(#[trigger] p[i]@) == name {
                let i = choose|i: int| 0 <= i < end && normalize_spec(#[trigger] p[i]@) == name;
                assert(i < e);
            }
        }
    }
}

/// The normalised names of people are never empty.
pub(crate) proof fn lemma_normalized_nonempty(p: Seq<String>, end: nat)
    ensures
        forall|k: int| 0 <= k < normalized_names(p, end).len() ==> (#[trigger] normalized_names(p, end)[k]).len() > 0,
    decreases end,
{
    if end > 0 {
        let e = (end - 1) as nat;
        lemma_normalized_nonempty(p, e);
        let prev = normalized_names(p, e);
        assert forall|k: int| 0 <= k < normalized_names(p, end).len() implies (#[trigger] normalized_names(
            p,
            end,
        )[k]).len() > 0 by {
            if k < prev.len() {
                assert(normalized_names(p, end)[k] == prev[k]);
            }
        }
    }
}

/// The names of people of the first `end` minisymposia are never empty.
proof fn lemma_people_names_nonempty(ms: Seq<Minisymposium>, end: nat)
    requires
        end <= ms.len(),
    ensures
        forall|k: int| 0 <= k < people_names(ms, end).len() ==> (#[trigger] people_names(ms, end)[k]).len() > 0,
    decreases end,
{
    if end > 0 {
        let e = (end - 1) as nat;
        lemma_people_names_nonempty(ms, e);
        let p = ms[e as int].speakers@ + ms[e as int].organizers@;
        lemma_normalized_nonempty(p, p.len());
        let prev = people_names(ms, e);
        let here = normalized_names(p, p.len());
        assert(people_names(ms, end) == prev + here);
        assert forall|k: int| 0 <= k < people_names(ms, end).len() implies (#[trigger] people_names(ms, end)[k]).len()
            > 0 by {
            if k < prev.len() {
                assert(people_names(ms, end)[k] == prev[k]);
            } else {
                assert(people_names(ms, end)[k] == here[k - prev.len()]);
            }
        }
    }
}

/// A person occurs among the names of the first `end` minisymposia once per
/// minisymposium that lists them, when each lists its people once.
#[verifier::spinoff_prover]
proof fn lemma_person_count(ms: Seq<Minisymposium>, name: Seq<char>, end: nat)
    requires
        end <= ms.len(),
        end <= usize::MAX,
        name.len() > 0,
        forall|i: int| 0 <= i < ms.len() ==> lists_once(#[trigger] ms[i]),
    ensures
        person_group(ms, name, end).finite(),
        person_group(ms, name, end).len() == count_in(people_names(ms, end), name, people_names(ms, end).len()),
    decreases end,
{
    if end == 0 {
        assert(person_group(ms, name, 0) =~= Set::empty());
    } else {
        let e = (end - 1) as nat;
        lemma_person_count(ms, name, e);
        let m = ms[e as int];
        let p = m.speakers@ + m.organizers@;
        assert(lists_once(m));
        lemma_name_count(p, name, p.len());
        let prev = people_names(ms, e);
        let here = normalized_names(p, p.len());
        assert(people_names(ms, end) == prev + here);
        lemma_count_in_concat(prev, here, name);
        let g = person_group(ms, name, e);
        let i = e as usize;
        assert(i as int == e);
        if lists_person(m, name) {
            assert(person_group(ms, name, end) =~= g.insert(i));
            assert(!g.contains(i));
        } else {
            assert(person_group(ms, name, end) =~= g);
        }
    }
}

/// When the speaker/organizer check reports a person on more minisymposia
/// than there are time slots, no schedule of that many slots that holds
/// every minisymposium is free of speaker/organizer conflicts, provided no
/// minisymposium lists the same person twice.
pub proof fn law_person_check_sound(
    ms: Seq<Minisymposium>,
    slots: nat,
    reason: Seq<char>,
    sched: Seq<Seq<usize>>,
)
    requires
        ms.len() <= usize::MAX,
        speaker_organizer_outcome(ms, slots, false, reason),
        forall|i: int| 0 <= i < ms.len() ==> lists_once(#[trigger] ms[i]),
        sched.len() <= slots,
        holds_all(sched, ms.len()),
    ensures
        conflicts_of(ConflictType::SpeakerOrganizer, ms, sched) > 0,
{
    let k = people_names(ms, ms.len());
    let top = max_count_upto(k, k.len());
    assert(top > slots);
    lemma_max_count_attained(k, k.len());
    let i = choose|i: int| 0 <= i < k.len() && count_in(k, #[trigger] k[i], k.len()) == max_count_upto(k, k.len());
    let name = k[i];
    lemma_people_names_nonempty(ms, ms.len());
    assert(name.len() > 0);
    lemma_person_count(ms, name, ms.len());
    let group = person_group(ms, name, ms.len());
    assert(group.len() == top);
    assert forall|x: usize| #[trigger] group.contains(x) implies exists|s: int| held_in(sched, x, s) by {
        assert(is_held(sched, x));
    }
    law_overbooked_person_conflicts(ms, sched, name, group);
}

/// The selective counts of a schedule agree with all its counts on the
/// current type and the protected types, and are zero on every other type.
pub proof fn law_selective_counts_agree_with_all(
    selective: ConflictCounts,
    all: ConflictCounts,
    ms: Seq<Minisymposium>,
    sched: Seq<Seq<usize>>,
    current: ConflictType,
    protected: Seq<ConflictType>,
)
    requires
        counts_match(all, ms, sched),
        forall|t: ConflictType|
            (t == current || protected.contains(t)) ==> #[trigger] count_of(selective, t) as int == conflicts_of(t, ms, sched)
                as int,
        forall|t: ConflictType| (t != current && !protected.contains(t)) ==> #[trigger] count_of(selective, t) == 0,
    ensures
        count_of(selective, current) == count_of(all, current),
        forall|t: ConflictType| #[trigger] protected.contains(t) ==> count_of(selective, t) == count_of(all, t),
        forall|t: ConflictType| t != current && !protected.contains(t) ==> #[trigger] count_of(selective, t) == 0,
{
    assert(count_of(selective, current) as int == conflicts_of(current, ms, sched) as int);
    assert(count_of(all, current) as int == conflicts_of(current, ms, sched) as int);
    assert forall|t: ConflictType| #[trigger] protected.contains(t) implies count_of(selective, t) == count_of(all, t) by {
        assert(count_of(selective, t) as int == conflicts_of(t, ms, sched) as int);
        assert(count_of(all, t) as int == conflicts_of(t, ms, sched) as int);
    }
}

/// The pairs `(i, j)` with `i < j < n` and `i < end` such that `p(i, j)`.
pub open spec fn pair_set(p: spec_fn(int, int) -> bool, n: nat, end: nat) -> Set<(int, int)> {
    Set::new(|q: (int, int)| 0 <= q.0 < end && q.0 < q.1 < n && p(q.0, q.1))
}

spec fn row_set(p: spec_fn(int, int) -> bool, i: nat, end: nat) -> Set<(int, int)> {
    Set::new(|q: (int, int)| q.0 == i && i < q.1 < end && p(q.0, q.1))
}

proof fn lemma_row_set(p: spec_fn(int, int) -> bool, i: nat, end: nat)
    ensures
        row_set(p, i, end).finite(),
        row_set(p, i, end).len() == row_pairs(p, i, end),
    decreases end,
{
    if end <= i + 1 {
        assert(row_set(p, i, end) =~= Set::<(int, int)>::empty());
    } else {
        lemma_row_set(p, i, (end - 1) as nat);
        let prev = row_set(p, i, (end - 1) as nat);
        let q = (i as int, end - 1);
        if p(i as int, end - 1) {
            assert(row_set(p, i, end) =~= prev.insert(q));
            assert(!prev.contains(q));
        } else {
            assert(row_set(p, i, end) =~= prev);
        }
    }
}

proof fn lemma_pair_set(p: spec_fn(int, int) -> bool, n: nat, end: nat)
    ensures
        pair_set(p, n, end).finite(),
        pair_set(p, n, end).len() == pairs_upto(p, n, end),
    decreases end,
{
    if end == 0 {
        assert(pair_set(p, n, end) =~= Set::<(int, int)>::empty());
    } else {
        lemma_pair_set(p, n, (end - 1) as nat);
        lemma_row_set(p, (end - 1) as nat, n);
        let a = pair_set(p, n, (end - 1) as nat);
        let b = row_set(p, (end - 1) as nat, n);
        assert(pair_set(p, n, end) =~= a + b);
        assert(a.disjoint(b));
        vstd::set::axiom_set_union_finite(a, b);
        vstd::set_lib::lemma_set_disjoint_lens(a, b);
    }
}

/// A count of pairs is the number of pairs `i < j < n` such that `p(i, j)`.
pub proof fn law_pair_count_is_number_of_pairs(p: spec_fn(int, int) -> bool, n: nat)
    ensures
        pair_set(p, n, n).finite(),
        pairs_upto(p, n, n) == pair_set(p, n, n).len(),
{
    lemma_pair_set(p, n, n);
}

/// The back-to-back count of a schedule is the number of unordered pairs of
/// cells (two entries of the schedule, slot by slot and room by room) that
/// hold minisymposia of one series whose titles and slot periods make a
/// back-to-back conflict.
pub proof fn law_series_back_count_counts_cell_pairs(ms: Seq<Minisymposium>, sched: Seq<Seq<usize>>)
    ensures
        conflicts_of(ConflictType::SeriesBackToBack, ms, sched) == Set::new(
            |q: (int, int)| 0 <= q.0 < q.1 < flat(sched).len() && entry_back_clash(ms, flat(sched), q.0, q.1),
        ).len(),
{
    let fl = flat(sched);
    let p = |a: int, b: int| entry_back_clash(ms, fl, a, b);
    lemma_pair_set(p, fl.len(), fl.len());
    assert(pair_set(p, fl.len(), fl.len()) =~= Set::new(
        |q: (int, int)| 0 <= q.0 < q.1 < flat(sched).len() && entry_back_clash(ms, flat(sched), q.0, q.1),
    ));
}

/// The pattern `p` does not fit into `s` at position `j`: it runs past the
/// end, or its first, second or fifth character differs there.
spec fn differs_at(s: Seq<char>, p: Seq<char>, j: int) -> bool {
    j + p.len() > s.len() || s[j] != p[0] || s[j + 1] != p[1] || s[j + 4] != p[4]
}

proof fn lemma_absent(s: Seq<char>, p: Seq<char>)
    requires
        9 <= p.len(),
        s.len() <= 17,
        differs_at(s, p, 0),
        differs_at(s, p, 1),
        differs_at(s, p, 2),
        differs_at(s, p, 3),
        differs_at(s, p, 4),
        differs_at(s, p, 5),
        differs_at(s, p, 6),
        differs_at(s, p, 7),
        differs_at(s, p, 8),
    ensures
        !has_substring(s, p),
{
    assert forall|j: int| !occurs_at(s, p, j) by {
        if occurs_at(s, p, j) {
            assert(j == 0 || j == 1 || j == 2 || j == 3 || j == 4 || j == 5 || j == 6 || j == 7 || j == 8);
            assert(s[j + 0] == p[0]);
            assert(s[j + 1] == p[1]);
            assert(s[j + 4] == p[4]);
        }
    }
}

/// Periods are ordered chronologically: the `k`-th period of the week
/// (Tuesday first period, Tuesday second period, Wednesday first period,
/// Wednesday second period, Thursday first period, ..., Friday second
/// period) has order `k`.
pub proof fn law_period_order_is_chronological(k: nat)
    requires
        k < 8,
    ensures
        period_order(period_name(k)) == k,
{
    reveal_strlit("TUE First Period");
    reveal_strlit("TUE Second Period");
    reveal_strlit("WED First Period");
    reveal_strlit("WED Second Period");
    reveal_strlit("THU First Period");
    reveal_strlit("THU Second Period");
    reveal_strlit("FRI First Period");
    reveal_strlit("FRI Second Period");
    reveal_strlit("TUE First");
    reveal_strlit("TUE Second");
    reveal_strlit("WED First");
    reveal_strlit("WED Second");
    reveal_strlit("THU First");
    reveal_strlit("THU Second");
    reveal_strlit("FRI First");
    reveal_strlit("FRI Second");
    let s = period_name(k);
    let pats = seq!["TUE First"@, "TUE Second"@, "WED First"@, "WED Second"@, "THU First"@, "THU Second"@, "FRI First"@, "FRI Second"@];
    assert(occurs_at(s, pats[k as int], 0));
    assert forall|m: int| 0 <= m < k implies !has_substring(s, #[trigger] pats[m]) by {
        lemma_absent(s, pats[m]);
    }
    assert(!has_substring(s, pats[0]) || k == 0);
}

/// The periods of the week in order, Tuesday first period to Friday second
/// period, have orders 0 to 7: each later period has a larger order, and
/// periods that follow each other have orders that differ by one.
pub proof fn law_week_periods_in_order()
    ensures
        period_order("TUE First Period"@) == 0,
        period_order("TUE Second Period"@) == 1,
        period_order("WED First Period"@) == 2,
        period_order("WED Second Period"@) == 3,
        period_order("THU First Period"@) == 4,
        period_order("THU Second Period"@) == 5,
        period_order("FRI First Period"@) == 6,
        period_order("FRI Second Period"@) == 7,
{
    law_period_order_is_chronological(0);
    law_period_order_is_chronological(1);
    law_period_order_is_chronological(2);
    law_period_order_is_chronological(3);
    law_period_order_is_chronological(4);
    law_period_order_is_chronological(5);
    law_period_order_is_chronological(6);
    law_period_order_is_chronological(7);
}

/// A period name that mentions none of the eight periods of the week has
/// order 999, after every real period.
pub proof fn law_unknown_period_order(period: Seq<char>)
    requires
        !has_substring(period, "TUE First"@),
        !has_substring(period, "TUE Second"@),
        !has_substring(period, "WED First"@),
        !has_substring(period, "WED Second"@),
        !has_substring(period, "THU First"@),
        !has_substring(period, "THU Second"@),
        !has_substring(period, "FRI First"@),
        !has_substring(period, "FRI Second"@),
    ensures
        period_order(period) == 999,
{
}

} // verus!
